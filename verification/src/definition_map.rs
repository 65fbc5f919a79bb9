//! The highlights of the captures under which locals define names, kept in
//! a hash map.

use vstd::prelude::*;
use crate::highlight_query::Highlight;
use crate::query::Capture;

verus! {

/// The highlight of each capture under which the locals of a language
/// define names, kept by the captures' indices in a hash map.
#[derive(Debug)]
#[verifier::external_body]
pub struct DefinitionMap {
    map: hashbrown::HashMap<u32, u32>,
}

/// The highlight number that a map holds for each capture index.
pub uninterp spec fn definition_map_contents(map: DefinitionMap) -> Map<u32, u32>;

/// What a map holds that holds nothing.
pub open spec fn no_definitions() -> Map<u32, u32> {
    Map::empty()
}

/// `HashMap::new`: a map that holds nothing.
#[verifier::external_body]
fn map_new() -> (made: DefinitionMap)
    ensures
        definition_map_contents(made) == no_definitions(),
{
    DefinitionMap { map: hashbrown::HashMap::new() }
}

/// `HashMap::insert`: the map holds the value for the key from now on, in
/// place of the value that it held for the key, which is handed out.
#[verifier::external_body]
fn map_insert(map: &mut DefinitionMap, key: u32, value: u32) -> (before: Option<u32>)
    ensures
        definition_map_contents(*final(map)) == definition_map_contents(*old(map)).insert(
            key,
            value,
        ),
        before == if definition_map_contents(*old(map)).dom().contains(key) {
            Some(definition_map_contents(*old(map))[key])
        } else {
            None
        },
{
    map.map.insert(key, value)
}

/// `HashMap::get` and `Option::copied`: the value that the map holds for
/// the key, if it holds one.
#[verifier::external_body]
fn map_get(map: &DefinitionMap, key: u32) -> (value: Option<u32>)
    ensures
        value == if definition_map_contents(*map).dom().contains(key) {
            Some(definition_map_contents(*map)[key])
        } else {
            None
        },
{
    map.map.get(&key).copied()
}

/// The highlight that the contents of a map give a capture; none for a
/// capture that they hold nothing for.
pub open spec fn highlight_in(contents: Map<u32, u32>, capture: Capture) -> Highlight {
    if contents.dom().contains(capture.0) {
        Highlight(contents[capture.0])
    } else {
        Highlight::spec_none()
    }
}

impl View for DefinitionMap {
    type V = Map<u32, u32>;

    open spec fn view(&self) -> Map<u32, u32> {
        definition_map_contents(*self)
    }
}

impl DefinitionMap {
    /// A map that gives no capture a highlight.
    pub fn new() -> (made: DefinitionMap)
        ensures
            made@ == no_definitions(),
    {
        map_new()
    }

    /// Gives a capture a highlight, in place of the one that it had, which
    /// is handed out.
    pub fn insert(&mut self, capture: Capture, highlight: Highlight) -> (before: Option<Highlight>)
        ensures
            final(self)@ == old(self)@.insert(capture.0, highlight.0),
            before == if old(self)@.dom().contains(capture.0) {
                Some(Highlight(old(self)@[capture.0]))
            } else {
                None
            },
    {
        match map_insert(self, capture.0, highlight.0) {
            Some(h) => Some(Highlight(h)),
            None => None,
        }
    }

    /// The highlight of a capture; none for a capture that the map holds
    /// nothing for.
    pub fn get(&self, capture: Capture) -> (highlight: Highlight)
        ensures
            highlight == highlight_in(self@, capture),
    {
        match map_get(self, capture.0) {
            Some(h) => Highlight(h),
            None => Highlight::none(),
        }
    }
}

} // verus!
