//! A bounded cache of rendered lines.
use crate::tui::style::{line_models, Line, SpanModel};
use std::collections::HashMap;
use vstd::prelude::*;

verus! {

broadcast use vstd::std_specs::hash::group_hash_axioms;

/// Soft cap on cached entries before the cache resets. Each entry is a small
/// `Vec<Line>` so 256 covers virtually any document while bounding memory.
pub const CACHE_LIMIT: usize = 256;

/// Rendered lines by key.
pub struct LineCache {
    entries: HashMap<u64, Vec<Line>>,
}

/// The entries after one more is stored: a full cache is cleared first.
pub open spec fn stored(
    entries: Map<u64, Seq<Seq<SpanModel>>>,
    key: u64,
    lines: Seq<Seq<SpanModel>>,
) -> Map<u64, Seq<Seq<SpanModel>>> {
    if entries.len() >= CACHE_LIMIT {
        Map::empty().insert(key, lines)
    } else {
        entries.insert(key, lines)
    }
}

impl LineCache {
    /// The entries of the cache.
    pub closed spec fn view(&self) -> Map<u64, Seq<Seq<SpanModel>>> {
        self.entries@.map_values(|lines: Vec<Line>| line_models(lines@))
    }

    /// An empty cache.
    pub fn new() -> (r: LineCache)
        ensures
            r@ == Map::<u64, Seq<Seq<SpanModel>>>::empty(),
    {
        let r = LineCache { entries: HashMap::new() };
        assert(r@ =~= Map::empty());
        r
    }

    /// A copy of the lines under `key`, if there are any.
    pub fn get(&self, key: u64) -> (r: Option<Vec<Line>>)
        ensures
            r is Some <==> self@.dom().contains(key),
            r matches Some(lines) ==> line_models(lines@) == self@[key],
    {
        match self.entries.get(&key) {
            Some(lines) => {
                let copy = lines.clone();
                assert(line_models(copy@) =~= line_models(lines@));
                Some(copy)
            },
            None => None,
        }
    }

    /// Store the lines under `key`; a full cache is cleared first.
    pub fn insert(&mut self, key: u64, lines: Vec<Line>)
        ensures
            final(self)@ == stored(old(self)@, key, line_models(lines@)),
    {
        assert(self@.dom() =~= self.entries@.dom());
        if self.entries.len() >= CACHE_LIMIT {
            self.entries.clear();
        }
        self.entries.insert(key, lines);
        assert(self@ =~= stored(old(self)@, key, line_models(lines@)));
    }
}

/// The cache never holds more entries than its limit.
pub proof fn law_cache_stays_bounded(
    entries: Map<u64, Seq<Seq<SpanModel>>>,
    key: u64,
    lines: Seq<Seq<SpanModel>>,
)
    requires
        entries.dom().finite(),
        entries.len() <= CACHE_LIMIT,
    ensures
        stored(entries, key, lines).dom().finite(),
        stored(entries, key, lines).len() <= CACHE_LIMIT,
{
}

/// What was stored last is found again.
pub proof fn law_stored_lines_are_found(
    entries: Map<u64, Seq<Seq<SpanModel>>>,
    key: u64,
    lines: Seq<Seq<SpanModel>>,
)
    ensures
        stored(entries, key, lines).dom().contains(key),
        stored(entries, key, lines)[key] == lines,
{
}

} // verus!
