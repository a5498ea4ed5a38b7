//! Light blocks kept in four tables, one per verification status.

use vstd::prelude::*;
use crate::codec::{cbor_uint, lemma_cbor_uint_injective, lemma_cbor_uint_order, lemma_lex_total};
use crate::table::{key_value, KeyValueDb};

verus! {

/// Namespace of the table of unverified blocks.
pub const UNVERIFIED_PREFIX: &'static str = "light_store/unverified";

/// Namespace of the table of verified blocks.
pub const VERIFIED_PREFIX: &'static str = "light_store/verified";

/// Namespace of the table of trusted blocks.
pub const TRUSTED_PREFIX: &'static str = "light_store/trusted";

/// Namespace of the table of failed blocks.
pub const FAILED_PREFIX: &'static str = "light_store/failed";

/// How far verification of a block has come.
#[derive(Clone, Copy, Debug, PartialEq, Eq, Structural)]
pub enum Status {
    Unverified,
    Verified,
    Trusted,
    Failed,
}

/// A signed header with its validator sets, held as its encoded bytes and
/// tagged with its height. The store never reads the bytes.
#[derive(Debug)]
pub struct LightBlock {
    pub height: u64,
    pub data: Vec<u8>,
}

impl View for LightBlock {
    type V = (u64, Seq<u8>);

    open spec fn view(&self) -> (u64, Seq<u8>) {
        (self.height, self.data@)
    }
}

impl LightBlock {
    pub fn new(height: u64, data: Vec<u8>) -> (r: Self)
        ensures
            r@ == (height, data@),
    {
        LightBlock { height, data }
    }

    pub fn height(&self) -> (r: u64)
        ensures
            r == self.height,
    {
        self.height
    }

    /// A copy of the block.
    pub fn duplicate(&self) -> (r: Self)
        ensures
            r@ == self@,
    {
        let mut data: Vec<u8> = Vec::new();
        let mut i: usize = 0;
        while i < self.data.len()
            invariant
                0 <= i <= self.data@.len(),
                data@ == self.data@.subrange(0, i as int),
            decreases self.data@.len() - i,
        {
            data.push(self.data[i]);
            i = i + 1;
            assert(data@ =~= self.data@.subrange(0, i as int));
        }
        assert(data@ =~= self.data@);
        LightBlock { height: self.height, data }
    }
}

/// The blocks of a table, by height.
pub open spec fn by_height(m: Map<Seq<u8>, LightBlock>) -> Map<u64, (u64, Seq<u8>)> {
    Map::new(|h: u64| m.contains_key(cbor_uint(h)), |h: u64| m[cbor_uint(h)]@)
}

/// Every entry of `m` sits under the encoding of its block's height.
pub open spec fn keyed_by_height(m: Map<Seq<u8>, LightBlock>) -> bool {
    forall|k: Seq<u8>| #[trigger] m.contains_key(k) ==> k == cbor_uint(m[k].height)
}

proof fn lemma_by_height_insert(m: Map<Seq<u8>, LightBlock>, b: LightBlock)
    ensures
        by_height(m.insert(cbor_uint(b.height), b)) == by_height(m).insert(b.height, b@),
{
    assert forall|h: u64| h != b.height implies #[trigger] cbor_uint(h) != cbor_uint(b.height) by {
        if cbor_uint(h) == cbor_uint(b.height) {
            lemma_cbor_uint_injective(h, b.height);
        }
    }
    assert(by_height(m.insert(cbor_uint(b.height), b)) =~= by_height(m).insert(b.height, b@));
}

proof fn lemma_by_height_remove(m: Map<Seq<u8>, LightBlock>, h: u64)
    ensures
        by_height(m.remove(cbor_uint(h))) == by_height(m).remove(h),
{
    assert forall|g: u64| g != h implies #[trigger] cbor_uint(g) != cbor_uint(h) by {
        if cbor_uint(g) == cbor_uint(h) {
            lemma_cbor_uint_injective(g, h);
        }
    }
    assert(by_height(m.remove(cbor_uint(h))) =~= by_height(m).remove(h));
}

/// The rows of a table keyed by height are its blocks, in ascending order of
/// height.
proof fn lemma_rows_by_height(t: KeyValueDb<LightBlock>)
    requires
        t.wf(),
        keyed_by_height(t@),
    ensures
        forall|i: int| 0 <= i < t.len() ==> by_height(t@).contains_key(#[trigger] t.value_at(i).height)
            && by_height(t@)[t.value_at(i).height] == t.value_at(i)@,
        forall|h: u64| #[trigger] by_height(t@).contains_key(h) ==> exists|i: int|
            0 <= i < t.len() && t.value_at(i).height == h,
        forall|i: int, j: int| 0 <= i < j < t.len() ==> #[trigger] t.value_at(i).height
            < #[trigger] t.value_at(j).height,
{
    t.lemma_rows();
    assert forall|i: int| 0 <= i < t.len() implies by_height(t@).contains_key(#[trigger] t.value_at(i).height)
        && by_height(t@)[t.value_at(i).height] == t.value_at(i)@ by {
        assert(t@.contains_key(t.key_at(i)));
    }
    assert forall|h: u64| #[trigger] by_height(t@).contains_key(h) implies exists|i: int|
        0 <= i < t.len() && t.value_at(i).height == h by {
        assert(t@.contains_key(cbor_uint(h)));
        let i = choose|i: int| 0 <= i < t.len() && t.key_at(i) == cbor_uint(h);
        assert(t@.contains_key(t.key_at(i)));
        lemma_cbor_uint_injective(h, t.value_at(i).height);
    }
    assert forall|i: int, j: int| 0 <= i < j < t.len() implies #[trigger] t.value_at(i).height
        < #[trigger] t.value_at(j).height by {
        let hi = t.value_at(i).height;
        let hj = t.value_at(j).height;
        assert(t@.contains_key(t.key_at(i)));
        assert(t@.contains_key(t.key_at(j)));
        assert(t.key_at(i) != t.key_at(j));
        lemma_lex_total(cbor_uint(hi), cbor_uint(hj));
        if hj < hi {
            lemma_cbor_uint_order(hj, hi);
        }
    }
}

/// `after` is `before` with block `b` added under `status`, the other
/// statuses untouched.
pub open spec fn inserted(before: SledStore, after: SledStore, b: (u64, Seq<u8>), status: Status) -> bool {
    &&& after.blocks(status) == before.blocks(status).insert(b.0, b)
    &&& forall|s: Status| s != status ==> #[trigger] after.blocks(s) == before.blocks(s)
}

/// `after` is `before` with block `b` moved to `status`: its height is held
/// there and under no other status.
pub open spec fn updated(before: SledStore, after: SledStore, b: (u64, Seq<u8>), status: Status) -> bool {
    &&& after.blocks(status) == before.blocks(status).insert(b.0, b)
    &&& forall|s: Status| s != status ==> #[trigger] after.blocks(s) == before.blocks(s).remove(b.0)
}

/// `after` is `before` without height `h` under `status`, the other
/// statuses untouched.
pub open spec fn removed(before: SledStore, after: SledStore, h: u64, status: Status) -> bool {
    &&& after.blocks(status) == before.blocks(status).remove(h)
    &&& forall|s: Status| s != status ==> #[trigger] after.blocks(s) == before.blocks(s)
}

/// No height is held under two statuses.
pub open spec fn exclusive(st: SledStore) -> bool {
    forall|h: u64, s: Status, t: Status|
        #[trigger] st.blocks(s).contains_key(h) && #[trigger] st.blocks(t).contains_key(h) ==> s == t
}

/// Light blocks partitioned by status, one table for each.
pub struct SledStore {
    unverified_db: KeyValueDb<LightBlock>,
    verified_db: KeyValueDb<LightBlock>,
    trusted_db: KeyValueDb<LightBlock>,
    failed_db: KeyValueDb<LightBlock>,
}

impl SledStore {
    /// The table for `status`.
    pub closed spec fn table(&self, status: Status) -> KeyValueDb<LightBlock> {
        match status {
            Status::Unverified => self.unverified_db,
            Status::Verified => self.verified_db,
            Status::Trusted => self.trusted_db,
            Status::Failed => self.failed_db,
        }
    }

    /// The blocks held under `status`, by height.
    pub open spec fn blocks(&self, status: Status) -> Map<u64, (u64, Seq<u8>)> {
        by_height(self.table(status)@)
    }

    pub open spec fn wf(&self) -> bool {
        forall|s: Status| #![trigger self.table(s)] self.table(s).wf() && keyed_by_height(self.table(s)@)
    }

    /// Opens the four empty tables under their namespaces.
    pub fn new() -> (r: Self)
        ensures
            r.wf(),
            forall|s: Status| (#[trigger] r.blocks(s)).is_empty(),
            exclusive(r),
            r.table(Status::Unverified).namespace() == UNVERIFIED_PREFIX@,
            r.table(Status::Verified).namespace() == VERIFIED_PREFIX@,
            r.table(Status::Trusted).namespace() == TRUSTED_PREFIX@,
            r.table(Status::Failed).namespace() == FAILED_PREFIX@,
    {
        let r = SledStore {
            unverified_db: key_value(UNVERIFIED_PREFIX),
            verified_db: key_value(VERIFIED_PREFIX),
            trusted_db: key_value(TRUSTED_PREFIX),
            failed_db: key_value(FAILED_PREFIX),
        };
        assert forall|s: Status| (#[trigger] r.blocks(s)).is_empty() by {
            assert(r.blocks(s) =~= Map::empty());
        }
        r
    }

    fn db(&self, status: Status) -> (r: &KeyValueDb<LightBlock>)
        ensures
            *r == self.table(status),
    {
        match status {
            Status::Unverified => &self.unverified_db,
            Status::Verified => &self.verified_db,
            Status::Trusted => &self.trusted_db,
            Status::Failed => &self.failed_db,
        }
    }

    /// Stores `b` under its height in the table for `status` alone.
    fn put(&mut self, b: LightBlock, status: Status)
        requires
            old(self).wf(),
        ensures
            final(self).wf(),
            final(self).blocks(status) == old(self).blocks(status).insert(b.height, b@),
            forall|s: Status| s != status ==> #[trigger] final(self).table(s) == old(self).table(s),
            forall|s: Status| #[trigger] final(self).table(s).namespace() == old(self).table(s).namespace(),
    {
        let h = b.height;
        let ghost g = b;
        let ghost m = self.table(status)@;
        assert(self.table(status).wf() && keyed_by_height(m));
        let _ = match status {
            Status::Unverified => self.unverified_db.insert(h, b),
            Status::Verified => self.verified_db.insert(h, b),
            Status::Trusted => self.trusted_db.insert(h, b),
            Status::Failed => self.failed_db.insert(h, b),
        };
        proof {
            assert(self.table(status)@ == m.insert(cbor_uint(h), g));
            lemma_by_height_insert(m, g);
            assert forall|s: Status| #![trigger self.table(s)] self.table(s).wf() && keyed_by_height(self.table(s)@) by {
                assert(old(self).table(s).wf());
                if s == status {
                    assert forall|k: Seq<u8>| #[trigger] self.table(s)@.contains_key(k) implies k
                        == cbor_uint(self.table(s)@[k].height) by {
                        if k != cbor_uint(h) {
                            assert(m.contains_key(k));
                        }
                    }
                }
            }
        }
    }

    /// Deletes height `h` from the table for `status` alone.
    fn delete(&mut self, h: u64, status: Status)
        requires
            old(self).wf(),
        ensures
            final(self).wf(),
            final(self).blocks(status) == old(self).blocks(status).remove(h),
            forall|s: Status| s != status ==> #[trigger] final(self).table(s) == old(self).table(s),
            forall|s: Status| #[trigger] final(self).table(s).namespace() == old(self).table(s).namespace(),
    {
        let ghost m = self.table(status)@;
        assert(self.table(status).wf() && keyed_by_height(m));
        let _ = match status {
            Status::Unverified => self.unverified_db.remove(h),
            Status::Verified => self.verified_db.remove(h),
            Status::Trusted => self.trusted_db.remove(h),
            Status::Failed => self.failed_db.remove(h),
        };
        proof {
            assert(self.table(status)@ == m.remove(cbor_uint(h)));
            lemma_by_height_remove(m, h);
            assert forall|s: Status| #![trigger self.table(s)] self.table(s).wf() && keyed_by_height(self.table(s)@) by {
                assert(old(self).table(s).wf());
                if s == status {
                    assert forall|k: Seq<u8>| #[trigger] self.table(s)@.contains_key(k) implies k
                        == cbor_uint(self.table(s)@[k].height) by {
                        assert(m.contains_key(k));
                    }
                }
            }
        }
    }

    /// The block at `height` under `status`; absent when it is held under
    /// another status or not at all.
    pub fn get(&self, height: u64, status: Status) -> (r: Option<LightBlock>)
        requires
            self.wf(),
        ensures
            r is Some <==> self.blocks(status).contains_key(height),
            r matches Some(b) ==> b@ == self.blocks(status)[height],
    {
        match self.db(status).get(height) {
            Ok(Some(b)) => Some(b.duplicate()),
            _ => None,
        }
    }

    /// Adds `light_block` under `status`, leaving the other statuses as they are.
    pub fn insert(&mut self, light_block: LightBlock, status: Status)
        requires
            old(self).wf(),
        ensures
            final(self).wf(),
            inserted(*old(self), *final(self), light_block@, status),
    {
        self.put(light_block, status);
    }

    /// Moves `light_block` to `status`: its height leaves every other status.
    pub fn update(&mut self, light_block: &LightBlock, status: Status)
        requires
            old(self).wf(),
        ensures
            final(self).wf(),
            updated(*old(self), *final(self), light_block@, status),
    {
        let height = light_block.height();
        if status != Status::Unverified {
            self.delete(height, Status::Unverified);
        }
        if status != Status::Verified {
            self.delete(height, Status::Verified);
        }
        if status != Status::Trusted {
            self.delete(height, Status::Trusted);
        }
        if status != Status::Failed {
            self.delete(height, Status::Failed);
        }
        self.put(light_block.duplicate(), status);
    }

    /// The block of greatest height under `status`; absent when there is none.
    pub fn latest(&self, status: Status) -> (r: Option<LightBlock>)
        requires
            self.wf(),
        ensures
            r is None <==> self.blocks(status).dom().is_empty(),
            r matches Some(b) ==> self.blocks(status).contains_key(b.height) && self.blocks(status)[b.height]
                == b@ && forall|h: u64| #[trigger] self.blocks(status).contains_key(h) ==> h <= b.height,
    {
        let t = self.db(status);
        let values = t.iter();
        proof {
            lemma_rows_by_height(*t);
        }
        let mut best: Option<usize> = None;
        let mut i: usize = 0;
        while i < values.len()
            invariant
                values@.len() == t.len(),
                forall|k: int| 0 <= k < values@.len() ==> *#[trigger] values@[k] == t.value_at(k),
                0 <= i <= values@.len(),
                best is None ==> i == 0,
                best matches Some(j) ==> j < i && forall|k: int| 0 <= k < i ==> #[trigger] values@[k].height
                    <= values@[j as int].height,
            decreases values@.len() - i,
        {
            match best {
                None => {
                    best = Some(i);
                },
                Some(j) => {
                    if values[i].height >= values[j].height {
                        best = Some(i);
                    }
                },
            }
            i = i + 1;
        }
        match best {
            None => {
                proof {
                    if !self.blocks(status).dom().is_empty() {
                        let h = self.blocks(status).dom().choose();
                        assert(self.blocks(status).dom().contains(h));
                        assert(by_height(t@).contains_key(h));
                    }
                }
                None
            },
            Some(j) => {
                let b = values[j].duplicate();
                proof {
                    assert(self.blocks(status).dom().contains(b.height));
                    assert forall|h: u64| #[trigger] self.blocks(status).contains_key(h) implies h <= b.height by {
                        assert(by_height(t@).contains_key(h));
                        let k = choose|k: int| 0 <= k < t.len() && t.value_at(k).height == h;
                        assert(values@[k].height == h);
                    }
                }
                Some(b)
            },
        }
    }

    /// Every block held under `status`, each once, in ascending order of height.
    pub fn all(&self, status: Status) -> (r: Vec<LightBlock>)
        requires
            self.wf(),
        ensures
            forall|i: int| 0 <= i < r@.len() ==> self.blocks(status).contains_key(#[trigger] r@[i].height)
                && self.blocks(status)[r@[i].height] == r@[i]@,
            forall|h: u64| #[trigger] self.blocks(status).contains_key(h) ==> exists|i: int|
                0 <= i < r@.len() && r@[i].height == h,
            forall|i: int, j: int| 0 <= i < j < r@.len() ==> #[trigger] r@[i].height < #[trigger] r@[j].height,
    {
        let t = self.db(status);
        let values = t.iter();
        proof {
            lemma_rows_by_height(*t);
        }
        let mut out: Vec<LightBlock> = Vec::new();
        let mut i: usize = 0;
        while i < values.len()
            invariant
                values@.len() == t.len(),
                forall|k: int| 0 <= k < values@.len() ==> *#[trigger] values@[k] == t.value_at(k),
                0 <= i <= values@.len(),
                out@.len() == i,
                forall|k: int| 0 <= k < i ==> (#[trigger] out@[k])@ == t.value_at(k)@,
            decreases values@.len() - i,
        {
            out.push(values[i].duplicate());
            i = i + 1;
        }
        proof {
            assert forall|h: u64| #[trigger] self.blocks(status).contains_key(h) implies exists|k: int|
                0 <= k < out@.len() && out@[k].height == h by {
                assert(by_height(t@).contains_key(h));
                let k = choose|k: int| 0 <= k < t.len() && t.value_at(k).height == h;
                assert(out@[k]@ == t.value_at(k)@);
            }
            assert forall|a: int, b: int| 0 <= a < b < out@.len() implies #[trigger] out@[a].height
                < #[trigger] out@[b].height by {
                assert(out@[a]@ == t.value_at(a)@);
                assert(out@[b]@ == t.value_at(b)@);
            }
            assert forall|a: int| 0 <= a < out@.len() implies self.blocks(status).contains_key(
                #[trigger] out@[a].height) && self.blocks(status)[out@[a].height] == out@[a]@ by {
                assert(out@[a]@ == t.value_at(a)@);
            }
        }
        out
    }

    /// Deletes `height` from `status` alone; an absent height is left absent.
    pub fn remove(&mut self, height: u64, status: Status)
        requires
            old(self).wf(),
        ensures
            final(self).wf(),
            removed(*old(self), *final(self), height, status),
    {
        self.delete(height, status);
    }
}

/// Copies the trusted block of greatest height in `primary`, if there is one,
/// into `shared` as trusted.
pub fn seed_trusted(primary: &SledStore, shared: &mut SledStore)
    requires
        primary.wf(),
        old(shared).wf(),
    ensures
        final(shared).wf(),
        primary.blocks(Status::Trusted).dom().is_empty() ==> *final(shared) == *old(shared),
        !primary.blocks(Status::Trusted).dom().is_empty() ==> exists|h: u64|
            #[trigger] primary.blocks(Status::Trusted).contains_key(h)
                && (forall|g: u64| #[trigger] primary.blocks(Status::Trusted).contains_key(g) ==> g <= h)
                && inserted(*old(shared), *final(shared), primary.blocks(Status::Trusted)[h], Status::Trusted),
{
    match primary.latest(Status::Trusted) {
        Some(b) => {
            let ghost h = b.height;
            shared.insert(b, Status::Trusted);
            assert(primary.blocks(Status::Trusted).contains_key(h));
        },
        None => {},
    }
}

/// After a block is moved to a status, its height is held under that status,
/// with that block, and under no other; moves keep every height under at most
/// one status.
pub proof fn lemma_update_exclusive(before: SledStore, after: SledStore, b: LightBlock, status: Status)
    requires
        updated(before, after, b@, status),
    ensures
        after.blocks(status).contains_key(b.height),
        after.blocks(status)[b.height] == b@,
        forall|s: Status| s != status ==> !(#[trigger] after.blocks(s)).contains_key(b.height),
        exclusive(before) ==> exclusive(after),
{
    assert forall|s: Status| s != status implies !(#[trigger] after.blocks(s)).contains_key(b.height) by {
        assert(after.blocks(s) == before.blocks(s).remove(b.height));
    }
    if exclusive(before) {
        assert forall|h: u64, s: Status, t: Status|
            #[trigger] after.blocks(s).contains_key(h) && #[trigger] after.blocks(t).contains_key(h) implies s
            == t by {
            if s != status {
                assert(after.blocks(s) == before.blocks(s).remove(b.height));
            }
            if t != status {
                assert(after.blocks(t) == before.blocks(t).remove(b.height));
            }
            if h != b.height {
                assert(before.blocks(s).contains_key(h));
                assert(before.blocks(t).contains_key(h));
            }
        }
    }
}

/// A block added under a status is read back unchanged at its height; once
/// that height is removed from the status it reads as absent.
pub proof fn lemma_insert_get_remove(
    s0: SledStore,
    s1: SledStore,
    s2: SledStore,
    b: LightBlock,
    status: Status,
)
    requires
        inserted(s0, s1, b@, status),
        removed(s1, s2, b.height, status),
    ensures
        s1.blocks(status).contains_key(b.height),
        s1.blocks(status)[b.height] == b@,
        !s2.blocks(status).contains_key(b.height),
{
}

/// Removing a height that a status does not hold changes nothing.
pub proof fn lemma_remove_absent(before: SledStore, after: SledStore, h: u64, status: Status)
    requires
        removed(before, after, h, status),
        !before.blocks(status).contains_key(h),
    ensures
        forall|s: Status| #[trigger] after.blocks(s) == before.blocks(s),
{
    assert(before.blocks(status).remove(h) =~= before.blocks(status));
    assert forall|s: Status| #[trigger] after.blocks(s) == before.blocks(s) by {
        if s == status {
            assert(after.blocks(s) =~= before.blocks(s));
        }
    }
}

/// Moves of two distinct heights do not disturb each other: after moving `a`
/// to `sa` and then `b` to `sb`, each height is held under its own last
/// status alone, with its own block.
pub proof fn lemma_updates_independent(
    s0: SledStore,
    s1: SledStore,
    s2: SledStore,
    a: LightBlock,
    sa: Status,
    b: LightBlock,
    sb: Status,
)
    requires
        a.height != b.height,
        updated(s0, s1, a@, sa),
        updated(s1, s2, b@, sb),
    ensures
        s2.blocks(sa).contains_key(a.height),
        s2.blocks(sa)[a.height] == a@,
        forall|s: Status| s != sa ==> !(#[trigger] s2.blocks(s)).contains_key(a.height),
        s2.blocks(sb).contains_key(b.height),
        s2.blocks(sb)[b.height] == b@,
        forall|s: Status| s != sb ==> !(#[trigger] s2.blocks(s)).contains_key(b.height),
{
    lemma_update_exclusive(s0, s1, a, sa);
    lemma_update_exclusive(s1, s2, b, sb);
    if sa == sb {
        assert(s2.blocks(sa) == s1.blocks(sa).insert(b.height, b@));
    } else {
        assert(s2.blocks(sa) == s1.blocks(sa).remove(b.height));
    }
    assert forall|s: Status| s != sa implies !(#[trigger] s2.blocks(s)).contains_key(a.height) by {
        assert(!s1.blocks(s).contains_key(a.height));
        if s == sb {
            assert(s2.blocks(s) == s1.blocks(s).insert(b.height, b@));
        } else {
            assert(s2.blocks(s) == s1.blocks(s).remove(b.height));
        }
    }
}

} // verus!
