//! The layers of a document: one syntax tree per embedded language, each
//! with its lexical scopes.

use vstd::prelude::*;
use crate::Range;
use crate::locals::Locals;

verus! {

/// A language, by the index that its loader gave it.
#[derive(Clone, Copy, Debug, PartialEq, Eq, Structural, Hash)]
pub struct Language(pub u32);

impl Language {
    /// The index as a position in a list of languages.
    pub fn idx(self) -> (i: usize)
        ensures
            i == self.0,
    {
        self.0 as usize
    }
}

/// A layer of a document, by its index among the layers.
#[derive(Clone, Copy, Debug, PartialEq, Eq, Structural, Hash)]
pub struct Layer(pub u32);

impl Layer {
    /// The index as a position in the list of layers.
    pub fn idx(self) -> (i: usize)
        ensures
            i == self.0,
    {
        self.0 as usize
    }
}

/// A range of a layer's text that another layer parses. A combined
/// injection shares its layer with other ranges, whose texts the layer
/// takes as one.
#[derive(Clone, Copy, Debug)]
pub struct Injection {
    pub layer: Layer,
    pub range: Range,
    pub combined: bool,
}

/// The injections come one behind the other.
pub open spec fn injections_sorted(is: Seq<Injection>) -> bool {
    &&& forall|a: int|
        0 <= a < is.len() ==> (#[trigger] is[a]).range.start_byte <= is[a].range.end_byte
    &&& forall|a: int, b: int|
        0 <= a < b < is.len() ==> (#[trigger] is[a]).range.end_byte <= (
        #[trigger] is[b]).range.start_byte
}

/// The index, from `from` on, of the first injection that ends behind the
/// byte; the number of injections if none does.
pub open spec fn first_behind(is: Seq<Injection>, idx: u32, from: int) -> int
    decreases is.len() - from,
{
    if from >= is.len() {
        is.len() as int
    } else if is[from].range.end_byte > idx {
        from
    } else {
        first_behind(is, idx, from + 1)
    }
}

/// The first injection that ends behind the byte, if it holds the byte.
pub open spec fn injection_at(is: Seq<Injection>, idx: u32) -> Option<Injection> {
    let at = first_behind(is, idx, 0);
    if at < is.len() && is[at].range.start_byte <= idx {
        Some(is[at])
    } else {
        None
    }
}

/// The injection that holds the byte `start`, if it ends at `end` or
/// behind it.
pub open spec fn injection_over(is: Seq<Injection>, start: u32, end: u32) -> Option<Injection> {
    match injection_at(is, start) {
        Some(injection) if injection.range.end_byte >= end => Some(injection),
        _ => None,
    }
}

/// The first injection that ends behind a byte is one of the injections,
/// if there is one.
pub proof fn lemma_first_behind(is: Seq<Injection>, idx: u32, from: int)
    requires
        0 <= from <= is.len(),
    ensures
        from <= first_behind(is, idx, from) <= is.len(),
        first_behind(is, idx, from) < is.len() ==> is[first_behind(is, idx, from)].range.end_byte
            > idx,
    decreases is.len() - from,
{
    if from < is.len() && is[from].range.end_byte <= idx {
        lemma_first_behind(is, idx, from + 1);
    }
}

/// Where the injections come one behind the other, the first that ends
/// behind a byte is the one that holds the byte, if one does.
pub proof fn lemma_first_behind_holds(is: Seq<Injection>, idx: u32, from: int, k: int)
    requires
        injections_sorted(is),
        0 <= from <= k < is.len(),
        is[k].range.start_byte <= idx < is[k].range.end_byte,
    ensures
        first_behind(is, idx, from) == k,
    decreases is.len() - from,
{
    if from < k {
        assert(is[from].range.end_byte <= is[k].range.start_byte);
        lemma_first_behind_holds(is, idx, from + 1, k);
    }
}

/// What the highlighter reads of one layer: its language, its lexical
/// scopes, the layer that it is injected into, and the ranges of its text
/// that other layers parse, in the order of their bytes.
#[derive(Debug)]
pub struct LayerInfo {
    pub language: Language,
    pub locals: Locals,
    pub parent: Option<Layer>,
    pub injections: Vec<Injection>,
}

impl LayerInfo {
    /// The injection that holds the byte, if there is one: the first that
    /// ends behind the byte, if it starts at the byte or before it. Where
    /// the injections come one behind the other, that is the one injection
    /// that holds the byte.
    pub fn injection_at_byte_idx(&self, idx: u32) -> (found: Option<&Injection>)
        ensures
            found == match injection_at(self.injections@, idx) {
                Some(injection) => Some(&injection),
                None => None,
            },
            found matches Some(injection) ==> injection.range.start_byte <= idx
                < injection.range.end_byte,
            forall|k: int|
                injections_sorted(self.injections@) && 0 <= k < self.injections@.len() && (
                #[trigger] self.injections@[k]).range.start_byte <= idx
                    < self.injections@[k].range.end_byte ==> found == Some(&self.injections@[k]),
    {
        let mut at: usize = 0;
        proof {
            lemma_first_behind(self.injections@, idx, 0);
            assert forall|k: int|
                injections_sorted(self.injections@) && 0 <= k < self.injections@.len() && (
                #[trigger] self.injections@[k]).range.start_byte <= idx
                    < self.injections@[k].range.end_byte implies first_behind(
                self.injections@,
                idx,
                0,
            ) == k by {
                lemma_first_behind_holds(self.injections@, idx, 0, k);
            }
        }
        while at < self.injections.len() && self.injections[at].range.end_byte <= idx
            invariant
                at <= self.injections@.len(),
                first_behind(self.injections@, idx, 0) == first_behind(
                    self.injections@,
                    idx,
                    at as int,
                ),
            decreases self.injections@.len() - at,
        {
            at += 1;
        }
        if at < self.injections.len() && self.injections[at].range.start_byte <= idx {
            Some(&self.injections[at])
        } else {
            None
        }
    }
}

/// The layers of a document. The root layer spans the document; the other
/// layers are injected into one of the others.
#[derive(Debug)]
pub struct Syntax {
    pub layers: Vec<LayerInfo>,
    pub root: Layer,
}

impl Syntax {
    /// Injection `i` of layer `l` leads into a layer of the document whose
    /// parent is layer `l`.
    pub open spec fn injection_fits(&self, l: int, i: int) -> bool {
        let into = self.layers@[l].injections@[i].layer;
        &&& into.0 < self.layers@.len()
        &&& self.layers@[into.0 as int].parent == Some(Layer(l as u32))
    }

    /// The layers fit together: they are few enough for their indices, the
    /// root and each parent is one of them, and each injection leads from a
    /// parent into one of its children.
    pub open spec fn fits_together(&self) -> bool {
        &&& self.layers@.len() <= u32::MAX
        &&& self.root.0 < self.layers@.len()
        &&& forall|l: int|
            0 <= l < self.layers@.len() ==> match (#[trigger] self.layers@[l]).parent {
                Some(p) => p.0 < self.layers@.len(),
                None => true,
            }
        &&& forall|l: int, i: int|
            0 <= l < self.layers@.len() && 0 <= i < self.layers@[l].injections@.len()
                ==> #[trigger] self.injection_fits(l, i)
    }

    /// The scopes of each layer are well-formed.
    pub open spec fn scopes_wf(&self) -> bool {
        forall|l: int| 0 <= l < self.layers@.len() ==> (#[trigger] self.layers@[l]).locals.wf()
    }

    /// Whether the scopes of each layer are well-formed.
    pub fn check_scopes(&self) -> (ok: bool)
        ensures
            ok == self.scopes_wf(),
    {
        let mut l: usize = 0;
        while l < self.layers.len()
            invariant
                l <= self.layers@.len(),
                forall|k: int| 0 <= k < l ==> (#[trigger] self.layers@[k]).locals.wf(),
            decreases self.layers@.len() - l,
        {
            if !self.layers[l].locals.check() {
                assert(!self.layers@[l as int].locals.wf());
                return false;
            }
            l += 1;
        }
        true
    }

    /// The layers fit together, and the scopes of each are well-formed.
    pub open spec fn wf(&self) -> bool {
        self.fits_together() && self.scopes_wf()
    }

    /// Whether the layers fit together.
    pub fn check(&self) -> (fits: bool)
        ensures
            fits == self.fits_together(),
    {
        let n = self.layers.len();
        if n > u32::MAX as usize || self.root.0 as usize >= n {
            return false;
        }
        let mut l: usize = 0;
        while l < n
            invariant
                n == self.layers@.len(),
                n <= u32::MAX,
                l <= n,
                forall|k: int|
                    0 <= k < l ==> match (#[trigger] self.layers@[k]).parent {
                        Some(p) => p.0 < self.layers@.len(),
                        None => true,
                    },
                forall|k: int, i: int|
                    0 <= k < l && 0 <= i < self.layers@[k].injections@.len()
                        ==> #[trigger] self.injection_fits(k, i),
            decreases n - l,
        {
            match self.layers[l].parent {
                Some(p) => {
                    if p.0 as usize >= n {
                        return false;
                    }
                },
                None => {},
            }
            let injections = &self.layers[l].injections;
            let mut i: usize = 0;
            while i < injections.len()
                invariant
                    n == self.layers@.len(),
                    n <= u32::MAX,
                    l < n,
                    injections@ == self.layers@[l as int].injections@,
                    i <= injections@.len(),
                    forall|j: int| 0 <= j < i ==> #[trigger] self.injection_fits(l as int, j),
                decreases injections@.len() - i,
            {
                let into = injections[i].layer.0 as usize;
                let fits = into < n && match self.layers[into].parent {
                    Some(p) => p.0 as usize == l,
                    None => false,
                };
                if !fits {
                    assert(!self.injection_fits(l as int, i as int));
                    return false;
                }
                i += 1;
            }
            l += 1;
        }
        true
    }

    /// The layer after an injection into the layer ends: the layer's
    /// parent; the root for a layer without one.
    pub open spec fn spec_parent(&self, layer: Layer) -> Layer {
        match self.layers@[layer.0 as int].parent {
            Some(p) => p,
            None => self.root,
        }
    }

    /// A layer of the document.
    pub fn layer(&self, layer: Layer) -> (info: &LayerInfo)
        requires
            layer.0 < self.layers@.len(),
        ensures
            *info == self.layers@[layer.0 as int],
    {
        &self.layers[layer.0 as usize]
    }

    /// The layer that holds the range, `depth` layers down from `layer` at
    /// most: the layer itself, unless one of its injections holds the range.
    pub open spec fn spec_layer_for(&self, layer: Layer, start: u32, end: u32, depth: nat) -> Layer
        decreases depth,
    {
        if depth == 0 {
            layer
        } else {
            match injection_over(self.layers@[layer.0 as int].injections@, start, end) {
                Some(injection) => self.spec_layer_for(
                    injection.layer,
                    start,
                    end,
                    (depth - 1) as nat,
                ),
                None => layer,
            }
        }
    }

    /// The injection of the layer that holds the range, if there is one:
    /// where it is, the layer that it leads into speaks for the range.
    pub fn injection_over(&self, layer: Layer, start: u32, end: u32) -> (found: Option<Injection>)
        requires
            layer.0 < self.layers@.len(),
        ensures
            found == injection_over(self.layers@[layer.0 as int].injections@, start, end),
    {
        match self.layers[layer.0 as usize].injection_at_byte_idx(start) {
            Some(injection) => if injection.range.end_byte >= end {
                Some(*injection)
            } else {
                None
            },
            None => None,
        }
    }

    /// The innermost layer with an injection around it that holds the
    /// range, going down from the root as many layers as the document has
    /// at most.
    pub fn layer_for_byte_range(&self, start: u32, end: u32) -> (layer: Layer)
        requires
            self.fits_together(),
        ensures
            layer == self.spec_layer_for(self.root, start, end, self.layers@.len()),
            layer.0 < self.layers@.len(),
    {
        let mut layer = self.root;
        let mut depth = self.layers.len();
        while depth > 0
            invariant
                self.fits_together(),
                layer.0 < self.layers@.len(),
                self.spec_layer_for(self.root, start, end, self.layers@.len())
                    == self.spec_layer_for(layer, start, end, depth as nat),
            decreases depth,
        {
            match self.injection_over(layer, start, end) {
                Some(injection) => {
                    proof {
                        let is = self.layers@[layer.0 as int].injections@;
                        let at = first_behind(is, start, 0);
                        lemma_first_behind(is, start, 0);
                        assert(self.injection_fits(layer.0 as int, at));
                    }
                    layer = injection.layer;
                },
                None => {
                    return layer;
                },
            }
            depth -= 1;
        }
        layer
    }

    /// The layer after an injection into the layer ends.
    pub fn parent(&self, layer: Layer) -> (p: Layer)
        requires
            layer.0 < self.layers@.len(),
        ensures
            p == self.spec_parent(layer),
    {
        match self.layers[layer.0 as usize].parent {
            Some(p) => p,
            None => self.root,
        }
    }
}

} // verus!
