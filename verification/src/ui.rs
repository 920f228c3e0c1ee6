//! What the interface shows: score text, building menu tabs and hotkeys.
use vstd::prelude::*;
use crate::structures::building_config::{BuildingCategory, BuildingComponentDef, BuildingDef, BuildingRegistry};
use crate::item_map::{distinct_names, ItemMap};
use crate::materials::items::{ItemDef, ItemRegistry};
use crate::systems::operational::Operational;
use crate::structures::building_config::{names_in_category, string_views};

verus! {

/// The hotkey label of a building menu tab.
pub open spec fn hotkey_text(category: BuildingCategory) -> Seq<char> {
    match category {
        BuildingCategory::Logistics => "[1]"@,
        BuildingCategory::Production => "[2]"@,
        BuildingCategory::Utility => "[3]"@,
    }
}

pub fn get_building_type_hotkey(building_type: BuildingCategory) -> (s: &'static str)
    ensures
        s@ == hotkey_text(building_type),
{
    match building_type {
        BuildingCategory::Logistics => "[1]",
        BuildingCategory::Production => "[2]",
        BuildingCategory::Utility => "[3]",
    }
}

/// Some definition is of `category`.
pub open spec fn has_category(defs: Seq<BuildingDef>, category: BuildingCategory) -> bool {
    exists|i: int| 0 <= i < defs.len() && (#[trigger] defs[i]).category == category
}

/// The categories that have buildings, in the order of their names.
pub open spec fn available_categories(defs: Seq<BuildingDef>) -> Seq<BuildingCategory> {
    let s0 = if has_category(defs, BuildingCategory::Logistics) {
        seq![BuildingCategory::Logistics]
    } else {
        Seq::empty()
    };
    let s1 = if has_category(defs, BuildingCategory::Production) {
        s0.push(BuildingCategory::Production)
    } else {
        s0
    };
    if has_category(defs, BuildingCategory::Utility) {
        s1.push(BuildingCategory::Utility)
    } else {
        s1
    }
}

/// The category tabs: a category is listed exactly when some definition is
/// of it, no category twice, and in the order of the categories' names.
pub proof fn lemma_available_categories_law(defs: Seq<BuildingDef>)
    ensures
        forall|c: BuildingCategory|
            #![trigger available_categories(defs).contains(c)]
            available_categories(defs).contains(c) <==> exists|i: int|
                0 <= i < defs.len() && (#[trigger] defs[i]).category == c,
        forall|i: int, j: int|
            0 <= i < j < available_categories(defs).len() ==> name_lt(
                category_label(#[trigger] available_categories(defs)[i]),
                category_label(#[trigger] available_categories(defs)[j]),
            ),
{
    reveal_strlit("Logistics");
    reveal_strlit("Production");
    reveal_strlit("Utility");
    let r = available_categories(defs);
    assert(name_lt("Logistics"@, "Production"@));
    assert(name_lt("Production"@, "Utility"@));
    assert(name_lt("Logistics"@, "Utility"@));
    assert forall|c: BuildingCategory|
        #![trigger available_categories(defs).contains(c)]
        available_categories(defs).contains(c) <==> exists|i: int|
            0 <= i < defs.len() && (#[trigger] defs[i]).category == c by {
        if r.contains(c) {
            let k = choose|k: int| 0 <= k < r.len() && r[k] == c;
            assert(has_category(defs, c));
        }
        if exists|i: int| 0 <= i < defs.len() && (#[trigger] defs[i]).category == c {
            assert(has_category(defs, c));
            match c {
                BuildingCategory::Logistics => {
                    assert(r[0] == c);
                },
                BuildingCategory::Production => {
                    if has_category(defs, BuildingCategory::Logistics) {
                        assert(r[1] == c);
                    } else {
                        assert(r[0] == c);
                    }
                },
                BuildingCategory::Utility => {
                    assert(r[r.len() - 1] == c);
                },
            }
        }
    }
}

/// The categories of the registered buildings, each once, sorted by name.
pub fn get_available_building_categories(registry: &BuildingRegistry) -> (r: Vec<BuildingCategory>)
    ensures
        r@ == available_categories(registry.definitions()),
{
    let n = registry.len();
    let mut logistics = false;
    let mut production = false;
    let mut utility = false;
    let mut i: usize = 0;
    while i < n
        invariant
            n == registry.definitions().len(),
            i <= n,
            logistics == has_category(registry.definitions().take(i as int), BuildingCategory::Logistics),
            production == has_category(registry.definitions().take(i as int), BuildingCategory::Production),
            utility == has_category(registry.definitions().take(i as int), BuildingCategory::Utility),
        decreases n - i,
    {
        let def = registry.definition_at(i);
        let ghost defs = registry.definitions();
        proof {
            assert forall|c: BuildingCategory| #![trigger has_category(defs.take(i + 1), c)]
                has_category(defs.take(i + 1), c) <==> (has_category(defs.take(i as int), c)
                    || defs[i as int].category == c) by {
                if has_category(defs.take(i + 1), c) {
                    let j = choose|j: int| 0 <= j < i + 1 && (#[trigger] defs.take(i + 1)[j]).category == c;
                    if j < i {
                        assert(defs.take(i as int)[j] == defs.take(i + 1)[j]);
                    }
                }
                if has_category(defs.take(i as int), c) {
                    let j = choose|j: int| 0 <= j < i && (#[trigger] defs.take(i as int)[j]).category == c;
                    assert(defs.take(i + 1)[j] == defs.take(i as int)[j]);
                }
                if defs[i as int].category == c {
                    assert(defs.take(i + 1)[i as int] == defs[i as int]);
                }
            }
        }
        match def.category {
            BuildingCategory::Logistics => {
                logistics = true;
            },
            BuildingCategory::Production => {
                production = true;
            },
            BuildingCategory::Utility => {
                utility = true;
            },
        }
        i = i + 1;
    }
    proof {
        assert(registry.definitions().take(n as int) =~= registry.definitions());
    }
    let mut r: Vec<BuildingCategory> = Vec::new();
    if logistics {
        r.push(BuildingCategory::Logistics);
    }
    if production {
        r.push(BuildingCategory::Production);
    }
    if utility {
        r.push(BuildingCategory::Utility);
    }
    proof {
        assert(r@ =~= available_categories(registry.definitions()));
    }
    r
}

/// The character of a decimal digit.
pub open spec fn digit_char(d: int) -> char {
    if d == 0 {
        '0'
    } else if d == 1 {
        '1'
    } else if d == 2 {
        '2'
    } else if d == 3 {
        '3'
    } else if d == 4 {
        '4'
    } else if d == 5 {
        '5'
    } else if d == 6 {
        '6'
    } else if d == 7 {
        '7'
    } else if d == 8 {
        '8'
    } else {
        '9'
    }
}

/// The decimal notation of `n`, without leading zeros.
pub open spec fn decimal(n: nat) -> Seq<char>
    decreases n,
{
    if n < 10 {
        seq![digit_char(n as int)]
    } else {
        decimal(n / 10).push(digit_char((n % 10) as int))
    }
}

/// The decimal notation of `n` with a comma between groups of three digits.
pub open spec fn grouped(n: nat) -> Seq<char>
    decreases n,
{
    if n < 1000 {
        decimal(n)
    } else {
        grouped(n / 1000) + seq![',', digit_char(((n % 1000) / 100) as int), digit_char(
            ((n % 100) / 10) as int,
        ), digit_char((n % 10) as int)]
    }
}

fn digit_text(d: u64) -> (s: &'static str)
    requires
        d < 10,
    ensures
        s@ == seq![digit_char(d as int)],
{
    proof {
        reveal_strlit("0");
        reveal_strlit("1");
        reveal_strlit("2");
        reveal_strlit("3");
        reveal_strlit("4");
        reveal_strlit("5");
        reveal_strlit("6");
        reveal_strlit("7");
        reveal_strlit("8");
        reveal_strlit("9");
    }
    if d == 0 {
        "0"
    } else if d == 1 {
        "1"
    } else if d == 2 {
        "2"
    } else if d == 3 {
        "3"
    } else if d == 4 {
        "4"
    } else if d == 5 {
        "5"
    } else if d == 6 {
        "6"
    } else if d == 7 {
        "7"
    } else if d == 8 {
        "8"
    } else {
        "9"
    }
}

/// The decimal notation of a number.
pub fn decimal_text(n: u64) -> (s: String)
    ensures
        s@ == decimal(n as nat),
    decreases n,
{
    if n < 10 {
        digit_text(n).to_owned()
    } else {
        let mut s = decimal_text(n / 10);
        s.append(digit_text(n % 10));
        s
    }
}

/// The number a string of decimal digits reads as.
pub open spec fn read_decimal(s: Seq<char>) -> int
    decreases s.len(),
{
    if s.len() == 0 {
        0
    } else {
        read_decimal(s.drop_last()) * 10 + ((s.last() as int) - ('0' as int))
    }
}

proof fn lemma_digit_value(d: int)
    requires
        0 <= d < 10,
    ensures
        (digit_char(d) as int) - ('0' as int) == d,
        '0' <= digit_char(d) <= '9',
{
}

/// The decimal notation of a number is made of digits, reads back as the
/// number, and starts with a zero only for zero itself.
pub proof fn lemma_decimal_reads_back(n: nat)
    ensures
        decimal(n).len() >= 1,
        forall|i: int| 0 <= i < decimal(n).len() ==> '0' <= #[trigger] decimal(n)[i] <= '9',
        read_decimal(decimal(n)) == n,
        decimal(n)[0] == '0' ==> n == 0,
    decreases n,
{
    if n < 10 {
        lemma_digit_value(n as int);
        assert(decimal(n).drop_last() =~= Seq::<char>::empty());
        assert(decimal(n).last() == digit_char(n as int));
        assert(read_decimal(decimal(n)) == read_decimal(decimal(n).drop_last()) * 10 + ((decimal(n).last() as int) - ('0' as int)));
    } else {
        lemma_digit_value((n % 10) as int);
        lemma_decimal_reads_back(n / 10);
        let prev = decimal(n / 10);
        let d = decimal(n);
        assert(d == prev.push(digit_char((n % 10) as int)));
        assert(d.drop_last() =~= prev);
        assert(d[0] == prev[0]);
        assert(n / 10 > 0);
        assert forall|i: int| 0 <= i < d.len() implies '0' <= #[trigger] d[i] <= '9' by {
            if i < prev.len() {
                assert(d[i] == prev[i]);
            }
        }
        assert((n / 10) * 10 + n % 10 == n) by (nonlinear_arith);
        assert(d.last() == digit_char((n % 10) as int));
        assert(read_decimal(d) == read_decimal(d.drop_last()) * 10 + ((d.last() as int) - ('0' as int)));
    }
}

/// The decimal notation of a number, its digits grouped by three.
pub fn grouped_text(n: u64) -> (s: String)
    ensures
        s@ == grouped(n as nat),
    decreases n,
{
    if n < 1000 {
        decimal_text(n)
    } else {
        let mut s = grouped_text(n / 1000);
        proof {
            reveal_strlit(",");
        }
        s.append(",");
        s.append(digit_text((n % 1000) / 100));
        s.append(digit_text((n % 100) / 10));
        s.append(digit_text(n % 10));
        proof {
            assert(s@ =~= grouped(n as nat));
        }
        s
    }
}

/// The score as shown below a million: plain under a thousand, with its
/// digits grouped by three from a thousand on. From a million on the score is
/// shown in millions with one decimal, which takes floating point; `None`
/// then.
pub fn format_score(score: u64) -> (s: Option<String>)
    ensures
        score >= 1_000_000 <==> s is None,
        s matches Some(t) ==> t@ == (if score >= 1000 {
            grouped(score as nat)
        } else {
            decimal(score as nat)
        }),
{
    if score >= 1_000_000 {
        None
    } else if score >= 1_000 {
        Some(grouped_text(score))
    } else {
        Some(decimal_text(score))
    }
}

/// `a` comes before `b` in the order of their characters' code points, a
/// proper prefix first; for valid UTF-8 this is the byte order of strings.
pub open spec fn name_lt(a: Seq<char>, b: Seq<char>) -> bool
    decreases a.len(),
{
    if a.len() == 0 {
        b.len() > 0
    } else if b.len() == 0 {
        false
    } else if a[0] != b[0] {
        (a[0] as int) < (b[0] as int)
    } else {
        name_lt(a.drop_first(), b.drop_first())
    }
}

proof fn lemma_name_lt_irreflexive(a: Seq<char>)
    ensures
        !name_lt(a, a),
    decreases a.len(),
{
    if a.len() > 0 {
        lemma_name_lt_irreflexive(a.drop_first());
    }
}

proof fn lemma_name_lt_total(a: Seq<char>, b: Seq<char>)
    requires
        a != b,
    ensures
        name_lt(a, b) || name_lt(b, a),
    decreases a.len(),
{
    if a.len() > 0 && b.len() > 0 && a[0] == b[0] {
        if a.drop_first() == b.drop_first() {
            assert(a =~= seq![a[0]] + a.drop_first());
            assert(b =~= seq![b[0]] + b.drop_first());
        }
        lemma_name_lt_total(a.drop_first(), b.drop_first());
    } else if a.len() > 0 && b.len() > 0 {
        assert((a[0] as int) != (b[0] as int));
    } else if a.len() == 0 && b.len() == 0 {
        assert(a =~= b);
    }
}

proof fn lemma_name_lt_transitive(a: Seq<char>, b: Seq<char>, c: Seq<char>)
    requires
        name_lt(a, b),
        name_lt(b, c),
    ensures
        name_lt(a, c),
    decreases a.len(),
{
    if a.len() > 0 && b.len() > 0 && c.len() > 0 && a[0] == b[0] && b[0] == c[0] {
        lemma_name_lt_transitive(a.drop_first(), b.drop_first(), c.drop_first());
    }
}

/// Whether `a` comes before `b` by name.
pub fn name_less(a: &str, b: &str) -> (r: bool)
    ensures
        r == name_lt(a@, b@),
{
    let na = a.unicode_len();
    let nb = b.unicode_len();
    let mut i: usize = 0;
    proof {
        assert(a@.skip(0) =~= a@);
        assert(b@.skip(0) =~= b@);
    }
    while i < na && i < nb
        invariant
            na == a@.len(),
            nb == b@.len(),
            i <= na && i <= nb,
            name_lt(a@, b@) == name_lt(a@.skip(i as int), b@.skip(i as int)),
        decreases na - i,
    {
        let ca = a.get_char(i);
        let cb = b.get_char(i);
        proof {
            assert(a@.skip(i as int)[0] == ca);
            assert(b@.skip(i as int)[0] == cb);
            assert(a@.skip(i as int).drop_first() =~= a@.skip(i + 1));
            assert(b@.skip(i as int).drop_first() =~= b@.skip(i + 1));
        }
        if ca != cb {
            return (ca as u32) < (cb as u32);
        }
        i = i + 1;
    }
    nb > i
}

/// An entry's name and quantity.
pub open spec fn entry_view<V>(e: (String, V)) -> (Seq<char>, V) {
    (e.0@, e.1)
}

pub open spec fn entry_views<V>(s: Seq<(String, V)>) -> Seq<(Seq<char>, V)> {
    s.map_values(|e: (String, V)| entry_view(e))
}

/// The entries come in strictly increasing order of their names.
pub open spec fn sorted_by_name<V>(s: Seq<(Seq<char>, V)>) -> bool {
    forall|i: int, j: int| 0 <= i < j < s.len() ==> name_lt(#[trigger] s[i].0, #[trigger] s[j].0)
}

/// No two entries share a name.
pub open spec fn unique_names<V>(s: Seq<(Seq<char>, V)>) -> bool {
    forall|i: int, j: int| 0 <= i < j < s.len() ==> #[trigger] s[i].0 != #[trigger] s[j].0
}

/// Inserting an entry at the place its name belongs keeps the order.
proof fn lemma_insert_sorted<V>(s: Seq<(Seq<char>, V)>, pos: int, x: (Seq<char>, V))
    requires
        sorted_by_name(s),
        0 <= pos <= s.len(),
        forall|j: int| 0 <= j < pos ==> name_lt(#[trigger] s[j].0, x.0),
        pos < s.len() ==> name_lt(x.0, s[pos].0),
    ensures
        sorted_by_name(s.insert(pos, x)),
{
    let t = s.insert(pos, x);
    assert forall|i: int, j: int| 0 <= i < j < t.len() implies name_lt(#[trigger] t[i].0, #[trigger] t[j].0) by {
        if j < pos {
            assert(t[i] == s[i] && t[j] == s[j]);
        } else if j == pos {
            assert(t[i] == s[i] && t[j] == x);
        } else if i < pos {
            assert(t[i] == s[i] && t[j] == s[j - 1]);
            if pos < s.len() {
                assert(name_lt(s[i].0, x.0));
                if j - 1 > pos {
                    lemma_name_lt_transitive(x.0, s[pos].0, s[j - 1].0);
                }
                lemma_name_lt_transitive(s[i].0, x.0, s[j - 1].0);
            }
        } else if i == pos {
            assert(t[i] == x && t[j] == s[j - 1]);
            if j - 1 > pos {
                lemma_name_lt_transitive(x.0, s[pos].0, s[j - 1].0);
            }
        } else {
            assert(t[i] == s[i - 1] && t[j] == s[j - 1]);
        }
    }
}

/// The entries sorted by name; their names must be distinct.
pub fn sort_by_name<V: Copy>(entries: &Vec<(String, V)>) -> (r: Vec<(String, V)>)
    requires
        unique_names(entry_views(entries@)),
    ensures
        sorted_by_name(entry_views(r@)),
        entry_views(r@).to_multiset() == entry_views(entries@).to_multiset(),
        r@.len() == entries@.len(),
{
    broadcast use {vstd::seq_lib::to_multiset_insert, vstd::seq_lib::to_multiset_contains};

    let mut r: Vec<(String, V)> = Vec::new();
    let n = entries.len();
    let ghost ev = entry_views(entries@);
    proof {
        assert(entry_views(r@) =~= ev.take(0));
    }
    let mut i: usize = 0;
    while i < n
        invariant
            n == entries@.len(),
            ev == entry_views(entries@),
            unique_names(ev),
            i <= n,
            r@.len() == i,
            sorted_by_name(entry_views(r@)),
            entry_views(r@).to_multiset() == ev.take(i as int).to_multiset(),
        decreases n - i,
    {
        let name = entries[i].0.clone();
        let q = entries[i].1;
        let ghost x = (name@, q);
        let ghost rv = entry_views(r@);
        proof {
            assert(x == ev[i as int]);
            assert forall|j: int| 0 <= j < rv.len() implies #[trigger] rv[j].0 != x.0 by {
                assert(rv.contains(rv[j]));
                vstd::seq_lib::to_multiset_contains(rv, rv[j]);
                vstd::seq_lib::to_multiset_contains(ev.take(i as int), rv[j]);
                assert(ev.take(i as int).to_multiset().count(rv[j]) > 0);
                assert(ev.take(i as int).contains(rv[j]));
                let k = choose|k: int| 0 <= k < i && ev.take(i as int)[k] == rv[j];
                assert(ev[k] == rv[j]);
            }
        }
        let mut pos: usize = 0;
        while pos < r.len()
            invariant
                pos <= r@.len(),
                rv == entry_views(r@),
                x.0 == name@,
                forall|j: int| 0 <= j < rv.len() ==> #[trigger] rv[j].0 != x.0,
                forall|j: int| 0 <= j < pos ==> name_lt(#[trigger] rv[j].0, x.0),
            ensures
                pos < r@.len() ==> name_lt(x.0, rv[pos as int].0),
                forall|j: int| 0 <= j < pos ==> name_lt(#[trigger] rv[j].0, x.0),
            decreases r@.len() - pos,
        {
            if name_less(name.as_str(), r[pos].0.as_str()) {
                break;
            }
            proof {
                assert(rv[pos as int].0 == r@[pos as int].0@);
                lemma_name_lt_total(rv[pos as int].0, x.0);
            }
            pos = pos + 1;
        }
        proof {
            lemma_insert_sorted(rv, pos as int, x);
        }
        r.insert(pos, (name, q));
        proof {
            assert(entry_views(r@) =~= rv.insert(pos as int, x));
            vstd::seq_lib::to_multiset_insert(rv, pos as int, x);
            assert(entry_views(r@).to_multiset() == rv.to_multiset().insert(x));
            assert(ev.take(i + 1) =~= ev.take(i as int).push(x));
            vstd::seq_lib::to_multiset_build(ev.take(i as int), x);
            assert(ev.take(i + 1).to_multiset() == ev.take(i as int).to_multiset().insert(x));
        }
        i = i + 1;
    }
    proof {
        assert(ev.take(n as int) =~= ev);
    }
    r
}

/// One line of a cost: the quantity, a space, the item.
pub open spec fn cost_line(e: (Seq<char>, u32)) -> Seq<char> {
    decimal(e.1 as nat) + " "@ + e.0
}

/// The lines of a cost, one per entry, separated by line breaks.
pub open spec fn cost_lines(s: Seq<(Seq<char>, u32)>) -> Seq<char>
    decreases s.len(),
{
    if s.len() == 0 {
        Seq::empty()
    } else if s.len() == 1 {
        cost_line(s[0])
    } else {
        cost_lines(s.drop_last()) + "\n"@ + cost_line(s.last())
    }
}

/// The text of a cost whose entries are `sorted`: "Free" for nothing, every
/// line for up to three items, else the first two lines and an ellipsis.
pub open spec fn cost_text(sorted: Seq<(Seq<char>, u32)>) -> Seq<char> {
    if sorted.len() == 0 {
        "Free"@
    } else if sorted.len() <= 3 {
        cost_lines(sorted)
    } else {
        cost_lines(sorted.take(2)) + "\n..."@
    }
}

/// The entries of an item map, sorted by name.
pub fn sorted_items(items: &ItemMap) -> (r: Vec<(String, u32)>)
    ensures
        sorted_by_name(entry_views(r@)),
        entry_views(r@).to_multiset() == entry_views(items.entries()).to_multiset(),
{
    let n = items.len();
    let mut v: Vec<(String, u32)> = Vec::new();
    let mut i: usize = 0;
    while i < n
        invariant
            n == items.entries().len(),
            distinct_names(items.entries()),
            i <= n,
            v@.len() == i,
            entry_views(v@) =~= entry_views(items.entries().take(i as int)),
        decreases n - i,
    {
        let (name, q) = items.entry_at(i);
        let ghost before = v@;
        let copied = name.clone();
        v.push((copied, q));
        proof {
            assert(v@ == before.push((copied, q)));
            assert(entry_view(v@[i as int]) == entry_view(items.entries()[i as int]));
            assert forall|j: int| 0 <= j < i + 1 implies #[trigger] entry_views(v@)[j] == entry_views(items.entries().take(i + 1))[j] by {
                if j < i {
                    assert(v@[j] == before[j]);
                    assert(entry_views(before)[j] == entry_views(items.entries().take(i as int))[j]);
                }
            }
            assert(entry_views(v@) =~= entry_views(items.entries().take(i + 1)));
        }
        i = i + 1;
    }
    proof {
        assert(items.entries().take(n as int) =~= items.entries());
        assert forall|i: int, j: int| 0 <= i < j < entry_views(v@).len() implies #[trigger] entry_views(v@)[i].0 != #[trigger] entry_views(v@)[j].0 by {
            assert(entry_views(v@)[i].0 == items.entries()[i].0@);
            assert(entry_views(v@)[j].0 == items.entries()[j].0@);
        }
    }
    sort_by_name(&v)
}

fn push_cost_line(s: &mut String, name: &String, quantity: u32)
    ensures
        final(s)@ == old(s)@ + cost_line((name@, quantity)),
{
    let digits = decimal_text(quantity as u64);
    s.append(digits.as_str());
    proof {
        reveal_strlit(" ");
    }
    s.append(" ");
    s.append(name.as_str());
}

/// The cost of a building as shown on its button.
pub fn format_cost_display(inputs: &ItemMap) -> (text: String)
    ensures
        exists|sorted: Seq<(Seq<char>, u32)>|
            sorted_by_name(sorted) && sorted.to_multiset() == entry_views(inputs.entries()).to_multiset()
                && text@ == cost_text(sorted),
{
    let sorted = sorted_items(inputs);
    let ghost sv = entry_views(sorted@);
    if sorted.len() == 0 {
        proof {
            reveal_strlit("Free");
        }
        return "Free".to_owned();
    }
    let shown: usize = if sorted.len() <= 3 {
        sorted.len()
    } else {
        2
    };
    let mut text = String::new();
    let mut i: usize = 0;
    proof {
        reveal_strlit("\n");
        reveal_strlit("\n...");
    }
    while i < shown
        invariant
            shown <= sorted@.len(),
            sv == entry_views(sorted@),
            i <= shown,
            i > 0 ==> text@ == cost_lines(sv.take(i as int)),
            i == 0 ==> text@ == Seq::<char>::empty(),
        decreases shown - i,
    {
        if i > 0 {
            text.append("\n");
        }
        push_cost_line(&mut text, &sorted[i].0, sorted[i].1);
        proof {
            assert(sv.take(i + 1).drop_last() =~= sv.take(i as int));
            assert(sv.take(i + 1).last() == sv[i as int]);
            if i == 0 {
                assert(text@ =~= cost_lines(sv.take(1)));
            } else {
                assert(text@ =~= cost_lines(sv.take(i + 1)));
            }
        }
        i = i + 1;
    }
    if sorted.len() > 3 {
        text.append("\n...");
    } else {
        proof {
            assert(sv.take(sv.len() as int) =~= sv);
        }
    }
    text
}

/// Reordering entries reorders their names alike.
proof fn lemma_multiset_map_first<V>(a: Seq<(Seq<char>, V)>, b: Seq<(Seq<char>, V)>)
    requires
        a.to_multiset() == b.to_multiset(),
    ensures
        a.map_values(|e: (Seq<char>, V)| e.0).to_multiset() == b.map_values(
            |e: (Seq<char>, V)| e.0,
        ).to_multiset(),
    decreases a.len(),
{
    let f = |e: (Seq<char>, V)| e.0;
    vstd::seq_lib::to_multiset_len(a);
    vstd::seq_lib::to_multiset_len(b);
    if a.len() == 0 {
        assert(a.map_values(f) =~= b.map_values(f));
    } else {
        let x = a.last();
        let a1 = a.drop_last();
        assert(a1.push(x) =~= a);
        vstd::seq_lib::to_multiset_build(a1, x);
        vstd::seq_lib::to_multiset_contains(a, x);
        vstd::seq_lib::to_multiset_contains(b, x);
        assert(a.contains(x)) by {
            assert(a[a.len() - 1] == x);
        }
        let k = choose|k: int| 0 <= k < b.len() && b[k] == x;
        let b1 = b.remove(k);
        vstd::seq_lib::to_multiset_remove(b, k);
        assert(a1.to_multiset() =~= b1.to_multiset()) by {
            broadcast use vstd::multiset::group_multiset_axioms;
        }
        lemma_multiset_map_first(a1, b1);
        assert(a.map_values(f) =~= a1.map_values(f).push(x.0));
        vstd::seq_lib::to_multiset_build(a1.map_values(f), x.0);
        assert(b1.insert(k, x) =~= b);
        assert(b.map_values(f) =~= b1.map_values(f).insert(k, x.0));
        vstd::seq_lib::to_multiset_insert(b1.map_values(f), k, x.0);
    }
}

/// Every listed name of a category is the name of one of the definitions.
proof fn lemma_category_names_from_defs(defs: Seq<BuildingDef>, c: BuildingCategory, r: int)
    requires
        0 <= r < names_in_category(defs, c).len(),
    ensures
        exists|j: int| 0 <= j < defs.len() && #[trigger] defs[j].name@ == names_in_category(defs, c)[r],
    decreases defs.len(),
{
    let rest = names_in_category(defs.drop_last(), c);
    if r < rest.len() {
        lemma_category_names_from_defs(defs.drop_last(), c, r);
        let j = choose|j: int| 0 <= j < defs.drop_last().len() && #[trigger] defs.drop_last()[j].name@ == rest[r];
        assert(defs[j] == defs.drop_last()[j]);
    } else {
        assert(defs[defs.len() - 1].name@ == names_in_category(defs, c)[r]);
    }
}

/// The names of a category repeat no name when the definitions do not.
proof fn lemma_category_names_unique(defs: Seq<BuildingDef>, c: BuildingCategory)
    requires
        forall|i: int, j: int| 0 <= i < j < defs.len() ==> #[trigger] defs[i].name@ != #[trigger] defs[j].name@,
    ensures
        forall|a: int, b: int|
            0 <= a < b < names_in_category(defs, c).len() ==> #[trigger] names_in_category(defs, c)[a]
                != #[trigger] names_in_category(defs, c)[b],
    decreases defs.len(),
{
    if defs.len() > 0 {
        let init = defs.drop_last();
        lemma_category_names_unique(init, c);
        let rest = names_in_category(init, c);
        if defs.last().category == c {
            assert forall|a: int| 0 <= a < rest.len() implies #[trigger] rest[a] != defs.last().name@ by {
                lemma_category_names_from_defs(init, c, a);
                let j = choose|j: int| 0 <= j < init.len() && #[trigger] init[j].name@ == rest[a];
                assert(defs[j] == init[j]);
            }
        }
    }
}

/// The names of the buildings of a category, sorted.
pub fn get_buildings_of_category(registry: &BuildingRegistry, building_category: BuildingCategory) -> (names: Vec<String>)
    ensures
        names@.len() == names_in_category(registry.definitions(), building_category).len(),
        sorted_by_name(entry_views(names@.map_values(|s: String| (s, ())))),
        string_views(names@).to_multiset() == names_in_category(registry.definitions(), building_category).to_multiset(),
{
    let listed = registry.get_buildings_by_category(building_category);
    let mut keyed: Vec<(String, ())> = Vec::new();
    let mut i: usize = 0;
    while i < listed.len()
        invariant
            i <= listed@.len(),
            keyed@.len() == i,
            forall|j: int| 0 <= j < i ==> #[trigger] keyed@[j].0@ == listed@[j]@,
        decreases listed@.len() - i,
    {
        keyed.push((listed[i].clone(), ()));
        i = i + 1;
    }
    let _ = registry.len();
    proof {
        assert forall|i: int, j: int| 0 <= i < j < registry.definitions().len() implies #[trigger] registry.definitions()[i].name@ != #[trigger] registry.definitions()[j].name@ by {}
        lemma_category_names_unique(registry.definitions(), building_category);
        assert forall|a: int, b: int| 0 <= a < b < entry_views(keyed@).len() implies #[trigger] entry_views(keyed@)[a].0 != #[trigger] entry_views(keyed@)[b].0 by {
            assert(entry_views(keyed@)[a].0 == string_views(listed@)[a]);
            assert(entry_views(keyed@)[b].0 == string_views(listed@)[b]);
        }
    }
    let sorted = sort_by_name(&keyed);
    let mut names: Vec<String> = Vec::new();
    let mut k: usize = 0;
    while k < sorted.len()
        invariant
            k <= sorted@.len(),
            names@.len() == k,
            forall|j: int| 0 <= j < k ==> #[trigger] names@[j]@ == sorted@[j].0@,
        decreases sorted@.len() - k,
    {
        names.push(sorted[k].0.clone());
        k = k + 1;
    }
    proof {
        assert(entry_views(names@.map_values(|s: String| (s, ()))) =~= entry_views(sorted@));
        assert(entry_views(keyed@) =~= string_views(listed@).map_values(|n: Seq<char>| (n, ())));
        assert(string_views(names@) =~= entry_views(sorted@).map_values(|e: (Seq<char>, ())| e.0));
        lemma_multiset_map_first(entry_views(sorted@), entry_views(keyed@));
        assert(string_views(listed@).map_values(|n: Seq<char>| (n, ())).map_values(|e: (Seq<char>, ())| e.0) =~= string_views(listed@));
    }
    names
}

/// The name shown for an item: its registered name, "Unknown" otherwise.
pub open spec fn shown_name(items: Map<Seq<char>, ItemDef>, k: Seq<char>) -> Seq<char> {
    if items.dom().contains(k) {
        items[k].name@
    } else {
        "Unknown"@
    }
}

/// One line of an inventory: the item's name, a colon, the quantity.
pub open spec fn inventory_line(items: Map<Seq<char>, ItemDef>, e: (Seq<char>, u32)) -> Seq<char> {
    shown_name(items, e.0) + ": "@ + decimal(e.1 as nat)
}

/// The lines of an inventory, separated by line breaks.
pub open spec fn inventory_lines(items: Map<Seq<char>, ItemDef>, s: Seq<(Seq<char>, u32)>) -> Seq<char>
    decreases s.len(),
{
    if s.len() == 0 {
        Seq::empty()
    } else if s.len() == 1 {
        inventory_line(items, s[0])
    } else {
        inventory_lines(items, s.drop_last()) + "\n"@ + inventory_line(items, s.last())
    }
}

/// The text shown on a building for what it holds: "Empty", or one line per
/// item in the order the items arrived.
pub fn inventory_display_text(held: &ItemMap, items: &ItemRegistry) -> (text: String)
    ensures
        held@.dom().len() == 0 ==> text@ == "Empty"@,
        held@.dom().len() > 0 ==> text@ == inventory_lines(items@, entry_views(held.entries())),
{
    let n = held.len();
    if n == 0 {
        proof {
            reveal_strlit("Empty");
        }
        return "Empty".to_owned();
    }
    let ghost ev = entry_views(held.entries());
    let mut text = String::new();
    let mut i: usize = 0;
    proof {
        reveal_strlit("\n");
        reveal_strlit(": ");
        reveal_strlit("Unknown");
    }
    while i < n
        invariant
            n == held.entries().len(),
            ev == entry_views(held.entries()),
            i <= n,
            i > 0 ==> text@ == inventory_lines(items@, ev.take(i as int)),
            i == 0 ==> text@ == Seq::<char>::empty(),
        decreases n - i,
    {
        if i > 0 {
            text.append("\n");
        }
        let (name, quantity) = held.entry_at(i);
        match items.get_definition(name.as_str()) {
            Some(def) => text.append(def.name.as_str()),
            None => text.append("Unknown"),
        }
        text.append(": ");
        let digits = decimal_text(quantity as u64);
        text.append(digits.as_str());
        proof {
            assert(ev[i as int] == (name@, quantity));
            assert(ev.take(i + 1).drop_last() =~= ev.take(i as int));
            assert(ev.take(i + 1).last() == ev[i as int]);
            if i == 0 {
                assert(text@ =~= inventory_lines(items@, ev.take(1)));
            } else {
                assert(text@ =~= inventory_lines(items@, ev.take(i + 1)));
            }
        }
        i = i + 1;
    }
    proof {
        assert(ev.take(n as int) =~= ev);
    }
    text
}

/// What to do with the warning sign over a building.
#[derive(Clone, Copy, Debug, PartialEq, Eq, Structural)]
pub enum IndicatorChange {
    Show,
    Hide,
    Keep,
}

/// A building that stopped working gets a warning sign; one that works
/// again loses it.
pub fn indicator_change(operational: &Operational, has_indicator: bool) -> (c: IndicatorChange)
    ensures
        c == (if !operational.status() && !has_indicator {
            IndicatorChange::Show
        } else if operational.status() && has_indicator {
            IndicatorChange::Hide
        } else {
            IndicatorChange::Keep
        }),
{
    let working = operational.get_status();
    if !working && !has_indicator {
        IndicatorChange::Show
    } else if working && has_indicator {
        IndicatorChange::Hide
    } else {
        IndicatorChange::Keep
    }
}

/// A whole number in decimal, with a minus sign when it is negative.
pub open spec fn signed_decimal(n: int) -> Seq<char> {
    if n < 0 {
        "-"@ + decimal((-n) as nat)
    } else {
        decimal(n as nat)
    }
}

fn push_signed(s: &mut String, n: i32)
    ensures
        final(s)@ == old(s)@ + signed_decimal(n as int),
{
    if n < 0 {
        s.append("-");
        let magnitude: i64 = -(n as i64);
        let digits = decimal_text(magnitude as u64);
        s.append(digits.as_str());
    } else {
        let digits = decimal_text(n as u64);
        s.append(digits.as_str());
    }
}

/// The name a building category is shown under.
pub open spec fn category_label(category: BuildingCategory) -> Seq<char> {
    match category {
        BuildingCategory::Production => "Production"@,
        BuildingCategory::Logistics => "Logistics"@,
        BuildingCategory::Utility => "Utility"@,
    }
}

fn category_text(category: BuildingCategory) -> (s: &'static str)
    ensures
        s@ == category_label(category),
{
    match category {
        BuildingCategory::Production => "Production",
        BuildingCategory::Logistics => "Logistics",
        BuildingCategory::Utility => "Utility",
    }
}

/// The recipe a crafter is set up with, or "Unknown".
pub open spec fn recipe_label(recipe_name: Option<String>) -> Seq<char> {
    match recipe_name {
        Some(name) => name@,
        None => "Unknown"@,
    }
}

/// The tooltip line of one component; `interval` is the component's crafting
/// or scanning interval as text, already formatted.
pub open spec fn capability_line(component: BuildingComponentDef, interval: Seq<char>) -> Seq<char> {
    match component {
        BuildingComponentDef::PowerConsumer { amount } => "  - Consumes "@ + signed_decimal(
            amount as int,
        ) + " power\n"@,
        BuildingComponentDef::PowerGenerator { amount } => "  - Generates "@ + signed_decimal(
            amount as int,
        ) + " power\n"@,
        BuildingComponentDef::ComputeGenerator { amount } => "  - Generates "@ + signed_decimal(
            amount as int,
        ) + " compute\n"@,
        BuildingComponentDef::ComputeConsumer { amount } => "  - Consumes "@ + signed_decimal(
            amount as int,
        ) + " compute\n"@,
        BuildingComponentDef::Inventory { capacity } => "  - Storage capacity: "@ + decimal(
            capacity as nat,
        ) + "\n"@,
        BuildingComponentDef::ViewRange { radius } => "  - View range: "@ + signed_decimal(
            radius as int,
        ) + " tiles\n"@,
        BuildingComponentDef::NetWorkComponent => "  - Network connection point\n"@,
        BuildingComponentDef::RecipeCrafter { recipe_name, available_recipes: _ } => "  - Crafts '"@
            + recipe_label(recipe_name) + "' every "@ + interval + "s\n"@,
        BuildingComponentDef::Scanner => "Reveals new tiles every "@ + interval
            + "s, scales with distance\n"@,
        BuildingComponentDef::InputPort { capacity } => "  - Input capacity: "@ + decimal(
            capacity as nat,
        ) + "\n"@,
        BuildingComponentDef::OutputPort { capacity } => "  - Output capacity: "@ + decimal(
            capacity as nat,
        ) + "\n"@,
        BuildingComponentDef::StoragePort { capacity } => "  - Storage capacity: "@ + decimal(
            capacity as nat,
        ) + "\n"@,
    }
}

/// The interval text given for the `i`-th component; empty when none is given.
pub open spec fn interval_of(intervals: Seq<String>, i: int) -> Seq<char> {
    if 0 <= i < intervals.len() {
        intervals[i]@
    } else {
        Seq::empty()
    }
}

/// The tooltip lines of the components, in order, each with its own interval.
pub open spec fn capability_lines(components: Seq<BuildingComponentDef>, intervals: Seq<String>) -> Seq<
    char,
>
    decreases components.len(),
{
    if components.len() == 0 {
        Seq::empty()
    } else {
        capability_lines(components.drop_last(), intervals) + capability_line(
            components.last(),
            interval_of(intervals, components.len() - 1),
        )
    }
}

/// The cost lines of a tooltip: each entry indented, one per line.
pub open spec fn tooltip_cost_lines(sorted: Seq<(Seq<char>, u32)>) -> Seq<char>
    decreases sorted.len(),
{
    if sorted.len() == 0 {
        Seq::empty()
    } else {
        tooltip_cost_lines(sorted.drop_last()) + "  "@ + cost_line(sorted.last()) + "\n"@
    }
}

/// The entries of an item map in the order of their names; as names are
/// distinct, this order is unique.
pub open spec fn by_name(items: ItemMap) -> Seq<(Seq<char>, u32)> {
    choose|s: Seq<(Seq<char>, u32)>|
        sorted_by_name(s) && s.to_multiset() == entry_views(items.entries()).to_multiset()
}

/// The opening lines of a tooltip: the name, the category, and the heading
/// of the cost.
pub open spec fn tooltip_head(def: BuildingDef) -> Seq<char> {
    def.name@ + "\n"@ + "Category: "@ + category_label(def.category) + "\n\n"@ + "Cost:\n"@
}

/// The cost lines of a tooltip, or "Free" when there are none.
pub open spec fn cost_block(sorted: Seq<(Seq<char>, u32)>) -> Seq<char> {
    if sorted.len() == 0 {
        "  Free\n"@
    } else {
        tooltip_cost_lines(sorted)
    }
}

/// The capability lines of a tooltip, or "Basic structure" when the building
/// has no component.
pub open spec fn capability_block(components: Seq<BuildingComponentDef>, intervals: Seq<String>) -> Seq<
    char,
> {
    if components.len() == 0 {
        "  - Basic structure\n"@
    } else {
        capability_lines(components, intervals)
    }
}

/// The tooltip of a building: its name, its category, its cost item by item
/// in the order of their names ("Free" when it costs nothing) and one line per
/// component ("Basic structure" when it has none). `intervals` holds, for each
/// component in order, its interval as text.
pub open spec fn tooltip_spec(def: BuildingDef, intervals: Seq<String>) -> Seq<char> {
    tooltip_head(def) + cost_block(by_name(def.placement.cost.inputs)) + "\nCapabilities:\n"@
        + capability_block(def.components@, intervals)
}

/// Two sequences sorted strictly by name with the same entries are equal.
proof fn lemma_sorted_unique<V>(a: Seq<(Seq<char>, V)>, b: Seq<(Seq<char>, V)>)
    requires
        sorted_by_name(a),
        sorted_by_name(b),
        a.to_multiset() == b.to_multiset(),
    ensures
        a == b,
    decreases a.len(),
{
    broadcast use vstd::seq_lib::group_to_multiset_ensures;
    vstd::seq_lib::to_multiset_len(a);
    vstd::seq_lib::to_multiset_len(b);
    if a.len() == 0 {
        assert(b.len() == 0);
        assert(a =~= b);
    } else {
        assert(b.len() == a.len());
        assert(a.to_multiset().count(a[0]) > 0);
        assert(b.contains(a[0]));
        let j = choose|j: int| 0 <= j < b.len() && b[j] == a[0];
        assert(b.to_multiset().count(b[0]) > 0);
        assert(a.contains(b[0]));
        let i = choose|i: int| 0 <= i < a.len() && a[i] == b[0];
        if j > 0 {
            assert(name_lt(b[0].0, b[j].0));
            if i == 0 {
                lemma_name_lt_irreflexive(a[0].0);
            } else {
                assert(name_lt(a[0].0, a[i].0));
                lemma_name_lt_transitive(b[0].0, a[0].0, b[0].0);
                lemma_name_lt_irreflexive(b[0].0);
            }
        }
        assert(a[0] == b[0]);
        vstd::seq_lib::to_multiset_remove(a, 0);
        vstd::seq_lib::to_multiset_remove(b, 0);
        assert(a.remove(0) =~= a.drop_first());
        assert(b.remove(0) =~= b.drop_first());
        lemma_sorted_unique(a.drop_first(), b.drop_first());
        assert(a =~= seq![a[0]] + a.drop_first());
        assert(b =~= seq![b[0]] + b.drop_first());
    }
}

/// Inserts an entry into entries sorted by name, before the first larger name.
pub open spec fn insert_by_name(s: Seq<(Seq<char>, u32)>, x: (Seq<char>, u32)) -> Seq<(Seq<char>, u32)>
    decreases s.len(),
{
    if s.len() == 0 {
        seq![x]
    } else if name_lt(x.0, s[0].0) {
        seq![x] + s
    } else {
        seq![s[0]] + insert_by_name(s.drop_first(), x)
    }
}

/// The entries sorted by name, by insertion.
pub open spec fn sorted_entries(s: Seq<(Seq<char>, u32)>) -> Seq<(Seq<char>, u32)>
    decreases s.len(),
{
    if s.len() == 0 {
        Seq::empty()
    } else {
        insert_by_name(sorted_entries(s.drop_last()), s.last())
    }
}

proof fn lemma_insert_by_name(s: Seq<(Seq<char>, u32)>, x: (Seq<char>, u32))
    requires
        sorted_by_name(s),
        forall|i: int| 0 <= i < s.len() ==> #[trigger] s[i].0 != x.0,
    ensures
        sorted_by_name(insert_by_name(s, x)),
        insert_by_name(s, x).to_multiset() == s.to_multiset().insert(x),
    decreases s.len(),
{
    broadcast use vstd::seq_lib::group_to_multiset_ensures;
    let r = insert_by_name(s, x);
    if s.len() == 0 {
        assert(seq![x] =~= Seq::<(Seq<char>, u32)>::empty().push(x));
        assert(s =~= Seq::<(Seq<char>, u32)>::empty());
    } else if name_lt(x.0, s[0].0) {
        assert(r =~= s.insert(0, x));
        vstd::seq_lib::to_multiset_insert(s, 0, x);
        assert forall|i: int, j: int| 0 <= i < j < r.len() implies name_lt(#[trigger] r[i].0, #[trigger] r[j].0) by {
            if i == 0 {
                assert(r[j] == s[j - 1]);
                if j - 1 > 0 {
                    assert(name_lt(s[0].0, s[j - 1].0));
                    lemma_name_lt_transitive(x.0, s[0].0, s[j - 1].0);
                }
            } else {
                assert(r[i] == s[i - 1] && r[j] == s[j - 1]);
            }
        }
    } else {
        let rest = s.drop_first();
        assert forall|i: int, j: int| 0 <= i < j < rest.len() implies name_lt(#[trigger] rest[i].0, #[trigger] rest[j].0) by {
            assert(rest[i] == s[i + 1] && rest[j] == s[j + 1]);
        }
        assert forall|i: int| 0 <= i < rest.len() implies #[trigger] rest[i].0 != x.0 by {
            assert(rest[i] == s[i + 1]);
        }
        lemma_insert_by_name(rest, x);
        let ir = insert_by_name(rest, x);
        assert(s[0].0 != x.0);
        lemma_name_lt_total(s[0].0, x.0);
        assert(r =~= ir.insert(0, s[0]));
        vstd::seq_lib::to_multiset_insert(ir, 0, s[0]);
        assert(s =~= rest.insert(0, s[0]));
        vstd::seq_lib::to_multiset_insert(rest, 0, s[0]);
        assert(r.to_multiset() =~= s.to_multiset().insert(x));
        assert forall|i: int, j: int| 0 <= i < j < r.len() implies name_lt(#[trigger] r[i].0, #[trigger] r[j].0) by {
            if i == 0 {
                let e = ir[j - 1];
                assert(r[j] == e);
                assert(ir.to_multiset().count(e) > 0);
                if e != x {
                    assert(rest.to_multiset().count(e) > 0);
                    assert(rest.contains(e));
                    let k = choose|k: int| 0 <= k < rest.len() && rest[k] == e;
                    assert(rest[k] == s[k + 1]);
                    assert(name_lt(s[0].0, s[k + 1].0));
                }
            } else {
                assert(r[i] == ir[i - 1] && r[j] == ir[j - 1]);
            }
        }
    }
}

/// Entries with distinct names can be sorted by name.
pub proof fn lemma_sorted_entries(s: Seq<(Seq<char>, u32)>)
    requires
        unique_names(s),
    ensures
        sorted_by_name(sorted_entries(s)),
        sorted_entries(s).to_multiset() == s.to_multiset(),
    decreases s.len(),
{
    broadcast use vstd::seq_lib::group_to_multiset_ensures;
    if s.len() == 0 {
        assert(sorted_entries(s) =~= s);
    } else {
        let p = s.drop_last();
        let x = s.last();
        assert forall|i: int, j: int| 0 <= i < j < p.len() implies #[trigger] p[i].0 != #[trigger] p[j].0 by {
            assert(p[i] == s[i] && p[j] == s[j]);
        }
        lemma_sorted_entries(p);
        let sp = sorted_entries(p);
        assert forall|i: int| 0 <= i < sp.len() implies #[trigger] sp[i].0 != x.0 by {
            assert(sp.to_multiset().count(sp[i]) > 0);
            assert(p.contains(sp[i]));
            let k = choose|k: int| 0 <= k < p.len() && p[k] == sp[i];
            assert(p[k] == s[k]);
            assert(s[k].0 != s[s.len() - 1].0);
        }
        lemma_insert_by_name(sp, x);
        assert(s =~= p.push(x));
    }
}

/// The names of an item map's entries are distinct.
proof fn lemma_entry_names_unique(entries: Seq<(String, u32)>)
    requires
        distinct_names(entries),
    ensures
        unique_names(entry_views(entries)),
{
    assert forall|i: int, j: int| 0 <= i < j < entry_views(entries).len() implies #[trigger] entry_views(entries)[i].0
        != #[trigger] entry_views(entries)[j].0 by {
        assert(entry_views(entries)[i].0 == entries[i].0@);
        assert(entry_views(entries)[j].0 == entries[j].0@);
    }
}

/// The entries of an item map in name order: sorted by name, the same
/// entries, as many.
pub proof fn lemma_by_name(items: ItemMap)
    requires
        distinct_names(items.entries()),
    ensures
        sorted_by_name(by_name(items)),
        by_name(items).to_multiset() == entry_views(items.entries()).to_multiset(),
        by_name(items).len() == items.entries().len(),
{
    let ev = entry_views(items.entries());
    lemma_entry_names_unique(items.entries());
    lemma_sorted_entries(ev);
    let w = sorted_entries(ev);
    assert(sorted_by_name(w) && w.to_multiset() == ev.to_multiset());
    let b = by_name(items);
    vstd::seq_lib::to_multiset_len(b);
    vstd::seq_lib::to_multiset_len(ev);
}

/// `t` ends with `suffix`.
pub open spec fn ends_with(t: Seq<char>, suffix: Seq<char>) -> bool {
    suffix.len() <= t.len() && t.subrange(t.len() - suffix.len(), t.len() as int) == suffix
}

proof fn lemma_decimal_ends_in_digit(n: nat)
    ensures
        decimal(n).len() >= 1,
        decimal(n).last() != 'e',
    decreases n,
{
    if n >= 10 {
        lemma_decimal_ends_in_digit(n / 10);
    }
}

/// No capability line ends the way "Basic structure" does: each has at least
/// three characters, and they do not end in "re" and a line break.
proof fn lemma_capability_line_ending(component: BuildingComponentDef, interval: Seq<char>)
    ensures
        capability_line(component, interval).len() >= 3,
        !(capability_line(component, interval)[capability_line(component, interval).len() - 2] == 'e'
            && capability_line(component, interval)[capability_line(component, interval).len() - 3]
            == 'r'),
{
    let l = capability_line(component, interval);
    reveal_strlit(" power\n");
    reveal_strlit(" compute\n");
    reveal_strlit(" tiles\n");
    reveal_strlit("\n");
    reveal_strlit("  - Network connection point\n");
    reveal_strlit("s\n");
    reveal_strlit("' every ");
    reveal_strlit("s, scales with distance\n");
    reveal_strlit("  - Storage capacity: ");
    reveal_strlit("  - Input capacity: ");
    reveal_strlit("  - Output capacity: ");
    match component {
        BuildingComponentDef::PowerConsumer { amount } => {
            let t = " power\n"@;
            let a = "  - Consumes "@ + signed_decimal(amount as int);
            assert(l == a + t);
            assert(l[l.len() - 2] == t[t.len() - 2]);
        },
        BuildingComponentDef::PowerGenerator { amount } => {
            let t = " power\n"@;
            let a = "  - Generates "@ + signed_decimal(amount as int);
            assert(l == a + t);
            assert(l[l.len() - 2] == t[t.len() - 2]);
        },
        BuildingComponentDef::ComputeGenerator { amount } => {
            let t = " compute\n"@;
            let a = "  - Generates "@ + signed_decimal(amount as int);
            assert(l == a + t);
            assert(l[l.len() - 3] == t[t.len() - 3]);
        },
        BuildingComponentDef::ComputeConsumer { amount } => {
            let t = " compute\n"@;
            let a = "  - Consumes "@ + signed_decimal(amount as int);
            assert(l == a + t);
            assert(l[l.len() - 3] == t[t.len() - 3]);
        },
        BuildingComponentDef::ViewRange { radius } => {
            let t = " tiles\n"@;
            let a = "  - View range: "@ + signed_decimal(radius as int);
            assert(l == a + t);
            assert(l[l.len() - 2] == t[t.len() - 2]);
        },
        BuildingComponentDef::NetWorkComponent => {
            assert(l[l.len() - 2] == 't');
        },
        BuildingComponentDef::RecipeCrafter { recipe_name, available_recipes: _ } => {
            let t = "s\n"@;
            let a = "  - Crafts '"@ + recipe_label(recipe_name) + "' every "@ + interval;
            assert(l == a + t);
            assert(a.len() >= 8);
            assert(l[l.len() - 2] == t[t.len() - 2]);
        },
        BuildingComponentDef::Scanner => {
            let t = "s, scales with distance\n"@;
            let a = "Reveals new tiles every "@ + interval;
            assert(l == a + t);
            assert(l[l.len() - 3] == t[t.len() - 3]);
        },
        BuildingComponentDef::Inventory { capacity } => {
            lemma_decimal_ends_in_digit(capacity as nat);
            let d = decimal(capacity as nat);
            let a = "  - Storage capacity: "@ + d;
            assert(l == a + "\n"@);
            assert(l[l.len() - 2] == a[a.len() - 1]);
            assert(a[a.len() - 1] == d.last());
        },
        BuildingComponentDef::InputPort { capacity } => {
            lemma_decimal_ends_in_digit(capacity as nat);
            let d = decimal(capacity as nat);
            let a = "  - Input capacity: "@ + d;
            assert(l == a + "\n"@);
            assert(l[l.len() - 2] == a[a.len() - 1]);
            assert(a[a.len() - 1] == d.last());
        },
        BuildingComponentDef::OutputPort { capacity } => {
            lemma_decimal_ends_in_digit(capacity as nat);
            let d = decimal(capacity as nat);
            let a = "  - Output capacity: "@ + d;
            assert(l == a + "\n"@);
            assert(l[l.len() - 2] == a[a.len() - 1]);
            assert(a[a.len() - 1] == d.last());
        },
        BuildingComponentDef::StoragePort { capacity } => {
            lemma_decimal_ends_in_digit(capacity as nat);
            let d = decimal(capacity as nat);
            let a = "  - Storage capacity: "@ + d;
            assert(l == a + "\n"@);
            assert(l[l.len() - 2] == a[a.len() - 1]);
            assert(a[a.len() - 1] == d.last());
        },
    }
}

/// The shape of a tooltip: it opens with the name, category and cost heading;
/// then come the cost lines, one per item of the cost in the order of their
/// names ("Free" when the building costs nothing); and it ends with "Basic
/// structure" exactly when the building has no component.
pub proof fn lemma_tooltip_structure(def: BuildingDef, intervals: Seq<String>)
    requires
        distinct_names(def.placement.cost.inputs.entries()),
    ensures
        ({
            let text = tooltip_spec(def, intervals);
            let head = tooltip_head(def);
            let sorted = by_name(def.placement.cost.inputs);
            let cost = cost_block(sorted);
            &&& text.subrange(0, head.len() as int) == head
            &&& sorted_by_name(sorted)
            &&& sorted.to_multiset() == entry_views(def.placement.cost.inputs.entries()).to_multiset()
            &&& sorted.len() == def.placement.cost.inputs.entries().len()
            &&& text.subrange(head.len() as int, (head.len() + cost.len()) as int) == cost
            &&& (sorted.len() == 0 ==> cost == "  Free\n"@)
            &&& (sorted.len() > 0 ==> cost == tooltip_cost_lines(sorted))
            &&& ends_with(text, "  - Basic structure\n"@) <==> def.components@.len() == 0
        }),
{
    lemma_by_name(def.placement.cost.inputs);
    let text = tooltip_spec(def, intervals);
    let head = tooltip_head(def);
    let sorted = by_name(def.placement.cost.inputs);
    let cost = cost_block(sorted);
    let caps = capability_block(def.components@, intervals);
    let mid = head + cost + "\nCapabilities:\n"@;
    assert(text == mid + caps);
    assert(text.subrange(0, head.len() as int) =~= head);
    assert(text.subrange(head.len() as int, (head.len() + cost.len()) as int) =~= cost);
    let b = "  - Basic structure\n"@;
    reveal_strlit("  - Basic structure\n");
    if def.components@.len() == 0 {
        assert(text.subrange(text.len() - b.len(), text.len() as int) =~= b);
    } else {
        let cs = def.components@;
        let l = capability_line(cs.last(), interval_of(intervals, cs.len() - 1));
        let x = capability_lines(cs.drop_last(), intervals);
        lemma_capability_line_ending(cs.last(), interval_of(intervals, cs.len() - 1));
        assert(caps == x + l);
        assert(text =~= (mid + x) + l);
        assert(text[text.len() - 2] == l[l.len() - 2]);
        assert(text[text.len() - 3] == l[l.len() - 3]);
        if ends_with(text, b) {
            let tail = text.subrange(text.len() - b.len(), text.len() as int);
            assert(tail[18] == text[text.len() - 2]);
            assert(tail[17] == text[text.len() - 3]);
        }
    }
}

fn push_capability_line(text: &mut String, component: &BuildingComponentDef, interval: &str)
    ensures
        final(text)@ == old(text)@ + capability_line(*component, interval@),
{
    match component {
        BuildingComponentDef::PowerConsumer { amount } => {
            text.append("  - Consumes ");
            push_signed(text, *amount);
            text.append(" power\n");
        },
        BuildingComponentDef::PowerGenerator { amount } => {
            text.append("  - Generates ");
            push_signed(text, *amount);
            text.append(" power\n");
        },
        BuildingComponentDef::ComputeGenerator { amount } => {
            text.append("  - Generates ");
            push_signed(text, *amount);
            text.append(" compute\n");
        },
        BuildingComponentDef::ComputeConsumer { amount } => {
            text.append("  - Consumes ");
            push_signed(text, *amount);
            text.append(" compute\n");
        },
        BuildingComponentDef::Inventory { capacity } => {
            text.append("  - Storage capacity: ");
            let digits = decimal_text(*capacity as u64);
            text.append(digits.as_str());
            text.append("\n");
        },
        BuildingComponentDef::ViewRange { radius } => {
            text.append("  - View range: ");
            push_signed(text, *radius);
            text.append(" tiles\n");
        },
        BuildingComponentDef::NetWorkComponent => {
            text.append("  - Network connection point\n");
        },
        BuildingComponentDef::RecipeCrafter { recipe_name, available_recipes: _ } => {
            text.append("  - Crafts '");
            match recipe_name {
                Some(name) => text.append(name.as_str()),
                None => text.append("Unknown"),
            }
            text.append("' every ");
            text.append(interval);
            text.append("s\n");
        },
        BuildingComponentDef::Scanner => {
            text.append("Reveals new tiles every ");
            text.append(interval);
            text.append("s, scales with distance\n");
        },
        BuildingComponentDef::InputPort { capacity } => {
            text.append("  - Input capacity: ");
            let digits = decimal_text(*capacity as u64);
            text.append(digits.as_str());
            text.append("\n");
        },
        BuildingComponentDef::OutputPort { capacity } => {
            text.append("  - Output capacity: ");
            let digits = decimal_text(*capacity as u64);
            text.append(digits.as_str());
            text.append("\n");
        },
        BuildingComponentDef::StoragePort { capacity } => {
            text.append("  - Storage capacity: ");
            let digits = decimal_text(*capacity as u64);
            text.append(digits.as_str());
            text.append("\n");
        },
    }
}

/// The tooltip shown for a building in the build menu. `intervals` holds,
/// for each component in order, its crafting or scanning interval formatted
/// with one decimal (any text for other components).
pub fn tooltip_text(def: &BuildingDef, intervals: &Vec<String>) -> (text: String)
    ensures
        text@ == tooltip_spec(*def, intervals@),
{
    let sorted = sorted_items(&def.placement.cost.inputs);
    let ghost sv = entry_views(sorted@);
    proof {
        let ghost target = by_name(def.placement.cost.inputs);
        assert(sorted_by_name(target) && target.to_multiset() == entry_views(
            def.placement.cost.inputs.entries(),
        ).to_multiset());
        lemma_sorted_unique(sv, target);
    }
    let mut text = def.name.clone();
    text.append("\n");
    text.append("Category: ");
    text.append(category_text(def.category));
    text.append("\n\n");
    text.append("Cost:\n");
    let ghost head = text@;
    if sorted.len() == 0 {
        text.append("  Free\n");
    } else {
        let mut i: usize = 0;
        while i < sorted.len()
            invariant
                sv == entry_views(sorted@),
                i <= sorted@.len(),
                text@ == head + tooltip_cost_lines(sv.take(i as int)),
            decreases sorted@.len() - i,
        {
            text.append("  ");
            push_cost_line(&mut text, &sorted[i].0, sorted[i].1);
            text.append("\n");
            proof {
                assert(sv.take(i + 1).drop_last() =~= sv.take(i as int));
                assert(sv.take(i + 1).last() == sv[i as int]);
            }
            i = i + 1;
        }
        proof {
            assert(sv.take(sv.len() as int) =~= sv);
        }
    }
    text.append("\nCapabilities:\n");
    let ghost middle = text@;
    let n = def.components.len();
    if n == 0 {
        text.append("  - Basic structure\n");
    } else {
        let ghost cs = def.components@;
        let mut k: usize = 0;
        while k < n
            invariant
                cs == def.components@,
                n == cs.len(),
                k <= n,
                text@ == middle + capability_lines(cs.take(k as int), intervals@),
            decreases n - k,
        {
            proof {
                reveal_strlit("");
            }
            let interval: &str = if k < intervals.len() {
                intervals[k].as_str()
            } else {
                ""
            };
            push_capability_line(&mut text, &def.components[k], interval);
            proof {
                assert(cs.take(k + 1).drop_last() =~= cs.take(k as int));
                assert(cs.take(k + 1).last() == cs[k as int]);
            }
            k = k + 1;
        }
        proof {
            assert(cs.take(n as int) =~= cs);
        }
    }
    text
}

} // verus!
