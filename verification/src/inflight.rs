//! Which objects are being uploaded or deleted right now.

use vstd::prelude::*;
use vstd::string::*;

use crate::table::{Keyed, Table};
use crate::text::texts;

verus! {

/// What a claim on a store path is for. One claim per path at a time.
#[derive(Debug, Clone, Copy, PartialEq, Eq, Structural)]
pub enum Kind {
    /// An upload is streaming the blob; its row lands once the blob does.
    Upload,
    /// The object is being removed: held from before the row is deleted until
    /// the blob is, so that no upload writes a blob which the pending deletion
    /// would then remove.
    Delete,
}

/// One held claim.
pub struct Held {
    /// Store path hash.
    pub hash: String,
    /// What it is held for.
    pub kind: Kind,
}

impl View for Held {
    type V = (Seq<char>, Kind);

    open spec fn view(&self) -> (Seq<char>, Kind) {
        (self.hash@, self.kind)
    }
}

impl Keyed for Held {
    open spec fn key_of(v: (Seq<char>, Kind)) -> Seq<char> {
        v.0
    }

    fn key(&self) -> (r: &str) {
        self.hash.as_str()
    }
}

/// The store path hashes being uploaded or deleted. It lives in memory only:
/// a crash leaves no half-written rows.
pub struct InFlight {
    /// The held claims by hash.
    pub held: Table<Held>,
}

/// The right to upload or delete one store path, until it is released.
pub struct Claim {
    /// The claimed hash.
    pub hash: String,
}

/// The hashes of claims.
pub open spec fn claimed(claims: Seq<Claim>) -> Seq<Seq<char>> {
    claims.map_values(|c: Claim| c.hash@)
}

/// What is held once the first `n` of `hashes` are claimed for deletion.
pub open spec fn with_deletions(
    held: Map<Seq<char>, (Seq<char>, Kind)>,
    hashes: Seq<Seq<char>>,
    n: nat,
) -> Map<Seq<char>, (Seq<char>, Kind)>
    decreases n,
{
    if n == 0 {
        held
    } else {
        let before = with_deletions(held, hashes, (n - 1) as nat);
        let hash = hashes[n - 1];
        if before.dom().contains(hash) {
            before
        } else {
            before.insert(hash, (hash, Kind::Delete))
        }
    }
}

/// Those of the first `n` of `hashes` that were not held when their turn came.
pub open spec fn newly_held(
    held: Map<Seq<char>, (Seq<char>, Kind)>,
    hashes: Seq<Seq<char>>,
    n: nat,
) -> Seq<Seq<char>>
    decreases n,
{
    if n == 0 {
        Seq::empty()
    } else {
        let before = newly_held(held, hashes, (n - 1) as nat);
        let hash = hashes[n - 1];
        if with_deletions(held, hashes, (n - 1) as nat).dom().contains(hash) {
            before
        } else {
            before.push(hash)
        }
    }
}

/// What is held once `hashes` are given back.
pub open spec fn without(
    held: Map<Seq<char>, (Seq<char>, Kind)>,
    hashes: Seq<Seq<char>>,
) -> Map<Seq<char>, (Seq<char>, Kind)>
    decreases hashes.len(),
{
    if hashes.len() == 0 {
        held
    } else {
        without(held, hashes.drop_last()).remove(hashes.last())
    }
}

/// The number of rows of `rows` that are held for an upload.
pub open spec fn count_uploads(rows: Seq<Held>) -> nat
    decreases rows.len(),
{
    if rows.len() == 0 {
        0
    } else {
        count_uploads(rows.drop_last()) + if rows.last().kind == Kind::Upload {
            1nat
        } else {
            0nat
        }
    }
}

impl View for InFlight {
    type V = Map<Seq<char>, (Seq<char>, Kind)>;

    open spec fn view(&self) -> Map<Seq<char>, (Seq<char>, Kind)> {
        self.held@
    }
}

impl InFlight {
    /// No path is held twice.
    pub open spec fn wf(self) -> bool {
        self.held.wf()
    }

    /// Nothing is held.
    pub fn new() -> (r: Self)
        ensures
            r.wf(),
            r@ == Map::<Seq<char>, (Seq<char>, Kind)>::empty(),
    {
        InFlight { held: Table::new() }
    }

    /// Takes the path, if nobody holds it. The error names what it is held for.
    pub fn claim(&mut self, hash: &str, kind: Kind) -> (r: Result<Claim, Kind>)
        requires
            old(self).wf(),
        ensures
            final(self).wf(),
            match r {
                Ok(claim) => !old(self)@.dom().contains(hash@) && claim.hash@ == hash@
                    && final(self)@ == old(self)@.insert(hash@, (hash@, kind)),
                Err(held) => old(self)@.dom().contains(hash@) && held == old(self)@[hash@].1
                    && *final(self) == *old(self),
            },
    {
        match self.held.get(hash) {
            Some(held) => Err(held.kind),
            None => {
                let row = Held { hash: hash.to_owned(), kind };
                assert(row@ == (hash@, kind));
                self.held.put(row);
                Ok(Claim { hash: hash.to_owned() })
            },
        }
    }

    /// Gives the claim back.
    pub fn release(&mut self, claim: Claim)
        requires
            old(self).wf(),
        ensures
            final(self).wf(),
            final(self)@ == old(self)@.remove(claim.hash@),
    {
        let _ = self.held.delete(claim.hash.as_str());
    }

    /// Takes for deletion those of the paths that nobody holds.
    pub fn claim_deletions(&mut self, hashes: &Vec<String>) -> (r: Vec<Claim>)
        requires
            old(self).wf(),
        ensures
            final(self).wf(),
            final(self)@ == with_deletions(old(self)@, texts(hashes@), hashes@.len()),
            claimed(r@) == newly_held(old(self)@, texts(hashes@), hashes@.len()),
    {
        let mut out: Vec<Claim> = Vec::new();
        let mut i: usize = 0;
        assert(claimed(out@) =~= Seq::<Seq<char>>::empty());
        while i < hashes.len()
            invariant
                i <= hashes@.len(),
                self.wf(),
                self@ == with_deletions(old(self)@, texts(hashes@), i as nat),
                claimed(out@) == newly_held(old(self)@, texts(hashes@), i as nat),
            decreases hashes@.len() - i,
        {
            let ghost prior = out@;
            if let Ok(claim) = self.claim(hashes[i].as_str(), Kind::Delete) {
                out.push(claim);
                assert(claimed(out@) =~= claimed(prior).push(hashes@[i as int]@));
            }
            i += 1;
        }
        out
    }

    /// Gives the claims back.
    pub fn release_all(&mut self, claims: Vec<Claim>)
        requires
            old(self).wf(),
        ensures
            final(self).wf(),
            final(self)@ == without(old(self)@, claimed(claims@)),
    {
        let ghost all = claimed(claims@);
        let ghost before = self@;
        assert(all.take(0) =~= Seq::<Seq<char>>::empty());
        for claim in it: claims
            invariant
                self.wf(),
                all == claimed(it.seq()),
                self@ == without(before, all.take(it.index())),
        {
            proof {
                let i = it.index();
                assert(all.take(i + 1).drop_last() =~= all.take(i));
                assert(all.take(i + 1).last() == claim.hash@);
            }
            self.release(claim);
        }
        assert(all.take(all.len() as int) =~= all);
    }

    /// Whether an upload or a deletion of this path is going on.
    pub fn contains(&self, hash: &str) -> (r: bool)
        requires
            self.wf(),
        ensures
            r == self@.dom().contains(hash@),
    {
        self.held.has(hash)
    }

    /// How many uploads are going on; deletions are not counted.
    pub fn uploads(&self) -> (r: usize)
        ensures
            r == count_uploads(self.held.rows@),
    {
        let mut n: usize = 0;
        let mut i: usize = 0;
        while i < self.held.rows.len()
            invariant
                i <= self.held.rows@.len(),
                n <= i,
                n == count_uploads(self.held.rows@.take(i as int)),
            decreases self.held.rows@.len() - i,
        {
            assert(self.held.rows@.take(i as int + 1).drop_last() =~= self.held.rows@.take(i as int));
            if self.held.rows[i].kind == Kind::Upload {
                n += 1;
            }
            i += 1;
        }
        assert(self.held.rows@.take(i as int) =~= self.held.rows@);
        n
    }
}

/// A claim that is released leaves everything as it was.
pub proof fn release_undoes_claim(
    before: Map<Seq<char>, (Seq<char>, Kind)>,
    hash: Seq<char>,
    kind: Kind,
)
    requires
        !before.dom().contains(hash),
    ensures
        before.insert(hash, (hash, kind)).remove(hash) == before,
{
    assert(before.insert(hash, (hash, kind)).remove(hash) =~= before);
}

proof fn given_back(held: Map<Seq<char>, (Seq<char>, Kind)>, hashes: Seq<Seq<char>>, h: Seq<char>)
    ensures
        without(held, hashes).dom().contains(h) <==> held.dom().contains(h) && !hashes.contains(h),
        without(held, hashes).dom().contains(h) ==> without(held, hashes)[h] == held[h],
    decreases hashes.len(),
{
    if hashes.len() > 0 {
        let front = hashes.drop_last();
        given_back(held, front, h);
        pushed(front, hashes.last(), h);
        assert(front.push(hashes.last()) =~= hashes);
    }
}

proof fn pushed(front: Seq<Seq<char>>, last: Seq<char>, h: Seq<char>)
    ensures
        front.push(last).contains(h) <==> front.contains(h) || h == last,
{
    let all = front.push(last);
    if front.contains(h) {
        let i = front.index_of(h);
        assert(all[i] == h);
    }
    assert(all[front.len() as int] == last);
    if all.contains(h) {
        let i = all.index_of(h);
        if i < front.len() {
            assert(front[i] == h);
        }
    }
}

proof fn taken(
    held: Map<Seq<char>, (Seq<char>, Kind)>,
    hashes: Seq<Seq<char>>,
    n: nat,
    h: Seq<char>,
)
    requires
        n <= hashes.len(),
    ensures
        with_deletions(held, hashes, n).dom().contains(h) <==> held.dom().contains(h)
            || newly_held(held, hashes, n).contains(h),
        newly_held(held, hashes, n).contains(h) ==> !held.dom().contains(h),
        held.dom().contains(h) ==> with_deletions(held, hashes, n)[h] == held[h],
        forall|i: int|
            0 <= i < n && #[trigger] hashes[i] == h ==> with_deletions(
                held,
                hashes,
                n,
            ).dom().contains(h),
    decreases n,
{
    if n > 0 {
        let m = (n - 1) as nat;
        taken(held, hashes, m, h);
        taken(held, hashes, m, hashes[m as int]);
        pushed(newly_held(held, hashes, m), hashes[m as int], h);
    }
}

/// While a deletion has its claims, every path that it removes is held, so that
/// no upload of one begins; uploads in progress keep theirs, and giving the
/// claims back leaves everything as it was.
pub proof fn deletions_hold_their_paths(
    held: Map<Seq<char>, (Seq<char>, Kind)>,
    hashes: Seq<Seq<char>>,
)
    ensures
        forall|i: int|
            0 <= i < hashes.len() ==> with_deletions(held, hashes, hashes.len()).dom().contains(
                #[trigger] hashes[i],
            ),
        forall|h: Seq<char>| #[trigger]
            held.dom().contains(h) ==> with_deletions(held, hashes, hashes.len())[h] == held[h],
        without(
            with_deletions(held, hashes, hashes.len()),
            newly_held(held, hashes, hashes.len()),
        ) == held,
{
    let n = hashes.len();
    let now = with_deletions(held, hashes, n);
    let new = newly_held(held, hashes, n);
    assert forall|i: int| 0 <= i < hashes.len() implies now.dom().contains(#[trigger] hashes[i]) by {
        taken(held, hashes, n, hashes[i]);
    }
    assert forall|h: Seq<char>| #[trigger] held.dom().contains(h) implies now[h] == held[h] by {
        taken(held, hashes, n, h);
    }
    assert forall|h: Seq<char>| #[trigger] without(now, new).dom().contains(h)
        == held.dom().contains(h) by {
        taken(held, hashes, n, h);
        given_back(now, new, h);
    }
    assert forall|h: Seq<char>| #[trigger] held.dom().contains(h) implies without(now, new)[h]
        == held[h] by {
        taken(held, hashes, n, h);
        given_back(now, new, h);
    }
    assert(without(now, new).dom() =~= held.dom());
    assert(without(now, new) =~= held);
}

proof fn deletions_are_for_deleting(
    held: Map<Seq<char>, (Seq<char>, Kind)>,
    hashes: Seq<Seq<char>>,
    n: nat,
    h: Seq<char>,
)
    requires
        n <= hashes.len(),
    ensures
        newly_held(held, hashes, n).contains(h) ==> hashes.take(n as int).contains(h),
        with_deletions(held, hashes, n).dom().contains(h) && !held.dom().contains(h)
            ==> with_deletions(held, hashes, n)[h] == (h, Kind::Delete),
        newly_held(held, hashes, n).no_duplicates(),
    decreases n,
{
    if n > 0 {
        let m = (n - 1) as nat;
        let last = hashes[m as int];
        deletions_are_for_deleting(held, hashes, m, h);
        taken(held, hashes, m, last);
        pushed(newly_held(held, hashes, m), last, h);
        pushed(hashes.take(m as int), last, h);
        assert(hashes.take(m as int).push(last) =~= hashes.take(n as int));
    }
}

/// A deletion claims each of its paths that nobody holds, once and for deleting,
/// and claims nothing else.
pub proof fn deletions_claim_what_is_free(
    held: Map<Seq<char>, (Seq<char>, Kind)>,
    hashes: Seq<Seq<char>>,
    h: Seq<char>,
)
    ensures
        newly_held(held, hashes, hashes.len()).contains(h) <==> hashes.contains(h)
            && !held.dom().contains(h),
        newly_held(held, hashes, hashes.len()).no_duplicates(),
        with_deletions(held, hashes, hashes.len()).dom().contains(h) <==> held.dom().contains(h)
            || hashes.contains(h),
        hashes.contains(h) && !held.dom().contains(h) ==> with_deletions(
            held,
            hashes,
            hashes.len(),
        )[h] == (h, Kind::Delete),
{
    let n = hashes.len();
    taken(held, hashes, n, h);
    deletions_are_for_deleting(held, hashes, n, h);
    assert(hashes.take(n as int) =~= hashes);
    if hashes.contains(h) {
        let i = hashes.index_of(h);
        assert(hashes[i] == h);
    }
}

/// Claims that are given back free their paths, and no others.
pub proof fn giving_back_frees_only_the_given(
    held: Map<Seq<char>, (Seq<char>, Kind)>,
    hashes: Seq<Seq<char>>,
    h: Seq<char>,
)
    ensures
        without(held, hashes).dom().contains(h) <==> held.dom().contains(h) && !hashes.contains(h),
        without(held, hashes).dom().contains(h) ==> without(held, hashes)[h] == held[h],
{
    given_back(held, hashes, h);
}

/// An upload counts while it is held and a deletion never does; none is counted
/// only where none is held.
pub proof fn uploads_are_counted(rows: Seq<Held>, row: Held)
    ensures
        count_uploads(rows.push(row)) == count_uploads(rows) + if row.kind == Kind::Upload {
            1int
        } else {
            0int
        },
        count_uploads(rows) == 0 <==> forall|i: int|
            0 <= i < rows.len() ==> (#[trigger] rows[i]).kind == Kind::Delete,
        count_uploads(rows) <= rows.len(),
    decreases rows.len(),
{
    assert(rows.push(row).drop_last() =~= rows);
    if rows.len() > 0 {
        let front = rows.drop_last();
        let last = rows.last();
        uploads_are_counted(front, row);
        if forall|i: int| 0 <= i < rows.len() ==> (#[trigger] rows[i]).kind == Kind::Delete {
            assert(rows[rows.len() - 1].kind == Kind::Delete);
            assert forall|i: int| 0 <= i < front.len() implies (#[trigger] front[i]).kind
                == Kind::Delete by {
                assert(rows[i].kind == Kind::Delete);
            }
        }
        if count_uploads(rows) == 0 {
            assert forall|i: int| 0 <= i < rows.len() implies (#[trigger] rows[i]).kind
                == Kind::Delete by {
                if i < front.len() {
                    assert(front[i].kind == Kind::Delete);
                }
            }
        }
    }
}

} // verus!
