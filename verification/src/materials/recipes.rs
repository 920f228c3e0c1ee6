//! Recipe definitions: what a crafter consumes and produces.
use vstd::prelude::*;
use crate::item_map::ItemMap;
use crate::registry::{Named, Registry};

verus! {

pub type RecipeName = String;

/// A recipe: the items consumed and the items produced by one craft.
pub struct RecipeDef {
    pub name: String,
    pub inputs: ItemMap,
    pub outputs: ItemMap,
}

impl Named for RecipeDef {
    open spec fn name_view(&self) -> Seq<char> {
        self.name@
    }

    fn name(&self) -> (r: &String) {
        &self.name
    }
}

/// Recipe definitions by name.
pub type RecipeRegistry = Registry<RecipeDef>;

impl Registry<RecipeDef> {
    /// The inputs of the recipe named `recipe_name`.
    pub fn get_inputs(&self, recipe_name: &str) -> (r: Option<&ItemMap>)
        ensures
            r == (if self@.dom().contains(recipe_name@) {
                Some(&self@[recipe_name@].inputs)
            } else {
                None::<&ItemMap>
            }),
    {
        match self.get_definition(recipe_name) {
            Some(def) => Some(&def.inputs),
            None => None,
        }
    }

    /// The outputs of the recipe named `recipe_name`.
    pub fn get_outputs(&self, recipe_name: &str) -> (r: Option<&ItemMap>)
        ensures
            r == (if self@.dom().contains(recipe_name@) {
                Some(&self@[recipe_name@].outputs)
            } else {
                None::<&ItemMap>
            }),
    {
        match self.get_definition(recipe_name) {
            Some(def) => Some(&def.outputs),
            None => None,
        }
    }
}

} // verus!
