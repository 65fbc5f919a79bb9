//! What a language brings to highlighting, and the languages that a
//! document may hold.

use vstd::prelude::*;
use std::sync::Arc;
use crate::definition_map::DefinitionMap;
use crate::highlight_query::{Highlight, HighlightQuery};
use crate::shared::SharedDefinitions;
use crate::syntax::Language;
use crate::text::str_eq;

verus! {

/// What one language brings to highlighting: its highlight query, and the
/// highlight of each capture under which its locals define names, which a
/// theme may replace at any time.
#[derive(Debug)]
pub struct LanguageConfig {
    pub highlight_query: HighlightQuery,
    pub local_definition_highlights: SharedDefinitions,
}

/// What tells the highlighter about the languages that a document may
/// hold.
pub trait LanguageLoader {
    /// The configuration of a language, if it has one.
    spec fn spec_config(&self, lang: Language) -> Option<LanguageConfig>;

    /// The language that goes by a name, if there is one.
    fn load_language(&self, name: &str) -> (language: Option<Language>);

    /// The configuration of a language, if it has one.
    fn get_config(&self, lang: Language) -> (config: Option<&LanguageConfig>)
        ensures
            match config {
                Some(c) => self.spec_config(lang) == Some(*c),
                None => self.spec_config(lang) is None,
            },
    ;
}

/// The first language from `from` on that goes by the name.
pub open spec fn named(names: Seq<String>, name: Seq<char>, from: int) -> Option<Language>
    decreases names.len() - from,
{
    if from < 0 || from >= names.len() || from > u32::MAX {
        None
    } else if names[from]@ == name {
        Some(Language(from as u32))
    } else {
        named(names, name, from + 1)
    }
}

/// The languages that a document may hold, by their indices: the name of
/// each, and its configuration if it has one.
#[derive(Debug)]
pub struct Languages {
    pub names: Vec<String>,
    pub configs: Vec<Option<LanguageConfig>>,
}

impl Languages {
    /// Whether a table is that of a language: there is one where the
    /// language is configured, and it holds as many highlights as the table
    /// of the language's query.
    pub open spec fn table_fits(&self, l: int, table: Option<Vec<Highlight>>) -> bool {
        match self.configs@[l] {
            Some(config) => table is Some && table->Some_0@.len()
                == config.highlight_query@.table_len,
            None => table is None,
        }
    }

    /// The highlights of the captures of each language that is configured,
    /// as they are at the time of the call: for each such language one
    /// highlight for each capture of its query. Which highlights they are is
    /// open, as any thread may have given the captures others since.
    pub fn highlights(&self) -> (tables: Vec<Option<Vec<Highlight>>>)
        ensures
            tables@.len() == self.configs@.len(),
            forall|l: int|
                0 <= l < tables@.len() ==> ((#[trigger] tables@[l]) is Some) == (self.configs@[l]
                    is Some),
            forall|l: int| 0 <= l < tables@.len() ==> self.table_fits(l, #[trigger] tables@[l]),
    {
        let mut tables: Vec<Option<Vec<Highlight>>> = Vec::new();
        let mut l: usize = 0;
        while l < self.configs.len()
            invariant
                l <= self.configs@.len(),
                tables@.len() == l,
                forall|k: int|
                    0 <= k < l ==> ((#[trigger] tables@[k]) is Some) == (self.configs@[k] is Some),
                forall|k: int| 0 <= k < l ==> self.table_fits(k, #[trigger] tables@[k]),
            decreases self.configs@.len() - l,
        {
            let table = match &self.configs[l] {
                Some(config) => Some(config.highlight_query.highlights()),
                None => None,
            };
            tables.push(table);
            l += 1;
        }
        tables
    }
}

impl Languages {
    /// The highlights of the captures under which the locals of each
    /// language that is configured define names, as they are at the time of
    /// the call. Which highlights they are is open, as any thread may have
    /// stored others since.
    pub fn definitions(&self) -> (maps: Vec<Option<Arc<DefinitionMap>>>)
        ensures
            maps@.len() == self.configs@.len(),
            forall|l: int|
                0 <= l < maps@.len() ==> ((#[trigger] maps@[l]) is Some) == (self.configs@[l]
                    is Some),
    {
        let mut maps: Vec<Option<Arc<DefinitionMap>>> = Vec::new();
        let mut l: usize = 0;
        while l < self.configs.len()
            invariant
                l <= self.configs@.len(),
                maps@.len() == l,
                forall|k: int|
                    0 <= k < l ==> ((#[trigger] maps@[k]) is Some) == (self.configs@[k] is Some),
            decreases self.configs@.len() - l,
        {
            let map = match &self.configs[l] {
                Some(config) => Some(config.local_definition_highlights.load()),
                None => None,
            };
            maps.push(map);
            l += 1;
        }
        maps
    }
}

impl LanguageLoader for Languages {
    open spec fn spec_config(&self, lang: Language) -> Option<LanguageConfig> {
        if lang.0 < self.configs@.len() {
            self.configs@[lang.0 as int]
        } else {
            None
        }
    }

    /// The first language that goes by the name.
    fn load_language(&self, name: &str) -> (language: Option<Language>)
        ensures
            language == named(self.names@, name@, 0),
    {
        let mut l: usize = 0;
        while l < self.names.len() && l <= u32::MAX as usize
            invariant
                l <= self.names@.len(),
                named(self.names@, name@, 0) == named(self.names@, name@, l as int),
            decreases self.names@.len() - l,
        {
            if str_eq(self.names[l].as_str(), name) {
                return Some(Language(l as u32));
            }
            l += 1;
        }
        None
    }

    fn get_config(&self, lang: Language) -> (config: Option<&LanguageConfig>) {
        if lang.idx() < self.configs.len() {
            self.configs[lang.idx()].as_ref()
        } else {
            None
        }
    }
}

} // verus!
