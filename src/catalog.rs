//! The consumer's table of layouts, keyed by record identity. An identity is
//! bound once, on first use, and never rebound afterwards.
use vstd::prelude::*;

use crate::record::{DecodeError, Layout, LayoutModel, Record, decode, decode_spec};

verus! {

/// The layout of the first entry with identity `id`.
pub open spec fn find(es: Seq<(u64, LayoutModel)>, id: u64) -> Option<LayoutModel>
    decreases es.len(),
{
    if es.len() == 0 {
        None
    } else if es[0].0 == id {
        Some(es[0].1)
    } else {
        find(es.drop_first(), id)
    }
}

proof fn lemma_find_push(es: Seq<(u64, LayoutModel)>, e: (u64, LayoutModel), id: u64)
    ensures
        find(es.push(e), id) == match find(es, id) {
            Some(l) => Some(l),
            None => if e.0 == id {
                Some(e.1)
            } else {
                None
            },
        },
    decreases es.len(),
{
    if es.len() > 0 {
        assert(es.push(e).drop_first() =~= es.drop_first().push(e));
        assert(es.push(e)[0] == es[0]);
        lemma_find_push(es.drop_first(), e, id);
    } else {
        assert(es.push(e).drop_first() =~= seq![]);
        reveal_with_fuel(find, 2);
    }
}

/// Layouts by record identity.
pub struct Catalog {
    entries: Vec<(u64, Layout)>,
}

impl Catalog {
    /// The entries, in the order they were added.
    pub closed spec fn entries_view(&self) -> Seq<(u64, LayoutModel)> {
        self.entries@.map_values(|e: (u64, Layout)| (e.0, e.1@))
    }

    /// The layout bound to `id`, if any.
    pub open spec fn lookup(&self, id: u64) -> Option<LayoutModel> {
        find(self.entries_view(), id)
    }

    /// An empty catalog.
    pub fn new() -> (r: Catalog)
        ensures
            forall|id: u64| r.lookup(id) is None,
    {
        let r = Catalog { entries: Vec::new() };
        assert(r.entries_view() =~= seq![]);
        r
    }

    /// Binds `id` to `layout` unless `id` is bound already, in which case
    /// the catalog is left as it was and `false` is returned.
    pub fn insert(&mut self, id: u64, layout: Layout) -> (r: bool)
        ensures
            r == (old(self).lookup(id) is None),
            forall|k: u64|
                #[trigger] final(self).lookup(k) == if k == id && r {
                    Some(layout@)
                } else {
                    old(self).lookup(k)
                },
    {
        if self.get(id).is_some() {
            return false;
        }
        let ghost before = self.entries_view();
        let ghost lv = layout@;
        self.entries.push((id, layout));
        assert(self.entries_view() =~= before.push((id, lv)));
        assert forall|k: u64|
            #[trigger] self.lookup(k) == if k == id {
                Some(lv)
            } else {
                find(before, k)
            } by {
            lemma_find_push(before, (id, lv), k);
        }
        true
    }

    /// The layout bound to `id`, if any.
    pub fn get(&self, id: u64) -> (r: Option<&Layout>)
        ensures
            match r {
                Some(l) => self.lookup(id) == Some(l@),
                None => self.lookup(id) is None,
            },
    {
        let n = self.entries.len();
        let ghost es = self.entries_view();
        let mut i: usize = 0;
        assert(es.subrange(0, n as int) =~= es);
        while i < n
            invariant
                n == self.entries@.len(),
                es == self.entries_view(),
                i <= n,
                find(es, id) == find(es.subrange(i as int, n as int), id),
            decreases n - i,
        {
            let ghost rest = es.subrange(i as int, n as int);
            assert(rest.drop_first() =~= es.subrange(i + 1, n as int));
            assert(rest[0] == (self.entries@[i as int].0, self.entries@[i as int].1@));
            if self.entries[i].0 == id {
                return Some(&self.entries[i].1);
            }
            i = i + 1;
        }
        None
    }

    /// Decodes a record whose template is known by identity `id`.
    pub fn decode_record(&self, id: u64, bytes: &[u8]) -> (r: Result<Record, DecodeError>)
        ensures
            match self.lookup(id) {
                None => r == Err::<Record, DecodeError>(DecodeError::UnknownTemplate),
                Some(l) => match r {
                    Ok(rec) => decode_spec(l, bytes@) == Ok::<
                        (crate::record::HeaderModel, Seq<char>),
                        DecodeError,
                    >((rec.header@, rec.text@)),
                    Err(e) => decode_spec(l, bytes@) == Err::<
                        (crate::record::HeaderModel, Seq<char>),
                        DecodeError,
                    >(e),
                },
            },
    {
        match self.get(id) {
            None => Err(DecodeError::UnknownTemplate),
            Some(l) => decode(l, bytes),
        }
    }
}

} // verus!
