//! How a body that arrives in chunks is stored: in one request where it is
//! short, and in parts where it is not.

use vstd::prelude::*;
use vstd::string::*;

use crate::digest::{absorb, absorbed, finish, sha256, start};
use crate::storage::UploadLimits;
use crate::text::opt_text;

verus! {

/// What an upload is at.
#[derive(Debug, Clone, Copy, PartialEq, Eq, Structural)]
pub enum Phase {
    /// Reading the first part, whose length decides the shape.
    First,
    /// The whole body is one short part, to be stored in one request.
    Single,
    /// The first part is full, and the store has to begin an upload in parts.
    Starting,
    /// Reading the next part.
    Reading,
    /// A part is read and has to be sent.
    Holding,
    /// The last part is sent.
    Draining,
    /// Everything is stored.
    Stored,
    /// Something failed after the store began an upload in parts, which must be
    /// aborted, or its parts linger.
    Aborting,
    /// Nothing is stored.
    Failed,
}

/// What an upload needs next.
#[derive(Debug, Clone, Copy, PartialEq, Eq, Structural)]
pub enum Want {
    /// Room for one part.
    Room,
    /// More of the body.
    Body,
    /// The body stored in one request.
    Put,
    /// An upload in parts begun.
    Start,
    /// The part at hand sent.
    Send,
    /// One of the parts on their way to arrive.
    Arrival,
    /// The upload in parts completed.
    Complete,
    /// The upload in parts aborted.
    Abort,
    /// Nothing more.
    Nothing,
}

/// A part that was sent.
#[derive(Debug)]
pub struct SentPart {
    /// It has arrived.
    pub arrived: bool,
    /// The tag that the store gave it.
    pub tag: Option<String>,
}

/// How many of `parts` are on their way.
pub open spec fn on_their_way(parts: Seq<SentPart>) -> nat
    decreases parts.len(),
{
    if parts.len() == 0 {
        0
    } else {
        on_their_way(parts.drop_last()) + if parts.last().arrived {
            0nat
        } else {
            1nat
        }
    }
}

/// The arrival of one part leaves one fewer on their way.
proof fn one_arrives(parts: Seq<SentPart>, i: int, part: SentPart)
    requires
        0 <= i < parts.len(),
        !parts[i].arrived,
        part.arrived,
    ensures
        on_their_way(parts) == on_their_way(parts.update(i, part)) + 1,
    decreases parts.len(),
{
    let updated = parts.update(i, part);
    if i == parts.len() - 1 {
        assert(updated.drop_last() =~= parts.drop_last());
    } else {
        one_arrives(parts.drop_last(), i, part);
        assert(updated.drop_last() =~= parts.drop_last().update(i, part));
    }
}

/// With none on their way, all have arrived.
proof fn all_arrived(parts: Seq<SentPart>)
    ensures
        on_their_way(parts) == 0 ==> forall|i: int|
            0 <= i < parts.len() ==> (#[trigger] parts[i]).arrived,
        on_their_way(parts) <= parts.len(),
    decreases parts.len(),
{
    if parts.len() > 0 {
        all_arrived(parts.drop_last());
        if on_their_way(parts) == 0 {
            assert forall|i: int| 0 <= i < parts.len() implies (#[trigger] parts[i]).arrived by {
                if i < parts.len() - 1 {
                    assert(parts.drop_last()[i].arrived);
                }
            }
        }
    }
}

/// Part `i` of `body`: the parts are all of `size` bytes, but for the last,
/// which is what is left.
pub open spec fn part_at(body: Seq<u8>, size: int, i: int) -> Seq<u8> {
    body.subrange(
        i * size,
        if (i + 1) * size <= body.len() {
            (i + 1) * size
        } else {
            body.len() as int
        },
    )
}

/// One body on its way to the store.
pub struct Upload {
    /// The bounds.
    pub limits: UploadLimits,
    /// What it is at.
    pub phase: Phase,
    /// What came of the body and is in no part yet.
    pub buffer: Vec<u8>,
    /// There is room for the part that is being read.
    pub room: bool,
    /// The part at hand, read and not sent.
    pub held: Vec<u8>,
    /// The body has ended, and its last part is read.
    pub last: bool,
    /// The digest of all parts read.
    pub hasher: sha2::Sha256,
    /// Bytes of all parts read.
    pub total: u64,
    /// The parts sent, in order of their numbers.
    pub sent: Vec<SentPart>,
    /// How many of them are on their way.
    pub in_flight: usize,
    /// What came of the body so far.
    pub body: Ghost<Seq<u8>>,
}

impl Upload {
    /// What every step keeps, while nothing has failed: the parts read are the
    /// parts of the body and their bytes are counted and digested, what is left
    /// of the body waits in the buffer, and no more parts are on their way than
    /// may be.
    pub open spec fn wf(self) -> bool {
        let size = self.limits.part_size as int;
        let most = if self.limits.max_parts_in_flight == 0 {
            1int
        } else {
            self.limits.max_parts_in_flight as int
        };
        &&& size > 0
        &&& self.total <= self.body@.len()
        &&& absorbed(self.hasher) == self.body@.take(self.total as int)
        &&& self.buffer@ == self.body@.skip(self.total as int)
        &&& self.in_flight == on_their_way(self.sent@)
        &&& self.in_flight <= most
        &&& match self.phase {
            Phase::First => self.sent@.len() == 0 && self.total == 0 && !self.last
                && self.buffer@.len() < size,
            Phase::Single => self.sent@.len() == 0 && self.last && self.total == self.body@.len()
                && self.total < size && self.held@ == self.body@,
            Phase::Starting => self.sent@.len() == 0 && !self.last && self.total == size
                && self.held@ == part_at(self.body@, size, 0),
            Phase::Reading => self.sent@.len() > 0 && !self.last && self.total == self.sent@.len()
                * size && (self.room ==> self.buffer@.len() < size),
            Phase::Holding => {
                &&& self.held@ == part_at(self.body@, size, self.sent@.len() as int)
                &&& self.held@.len() > 0
                &&& if self.last {
                    &&& self.total == self.body@.len()
                    &&& self.sent@.len() * size < self.total
                    &&& self.total < (self.sent@.len() + 1) * size
                } else {
                    self.total == (self.sent@.len() + 1) * size
                }
            },
            Phase::Draining => {
                &&& self.last
                &&& self.total == self.body@.len()
                &&& self.sent@.len() > 0
                &&& (self.sent@.len() - 1) * size < self.total
                &&& self.total <= self.sent@.len() * size
            },
            Phase::Stored => self.total == self.body@.len(),
            _ => true,
        }
    }

    /// What the upload needs next.
    pub open spec fn wanted(self) -> Want {
        match self.phase {
            Phase::First | Phase::Reading => if self.room {
                Want::Body
            } else {
                Want::Room
            },
            Phase::Single => Want::Put,
            Phase::Starting => Want::Start,
            Phase::Holding => if self.sent@.len() == 0 || self.in_flight
                < self.limits.max_parts_in_flight {
                Want::Send
            } else if self.in_flight > 0 {
                Want::Arrival
            } else {
                Want::Abort
            },
            Phase::Draining => if self.in_flight > 0 {
                Want::Arrival
            } else {
                Want::Complete
            },
            Phase::Aborting => Want::Abort,
            Phase::Stored | Phase::Failed => Want::Nothing,
        }
    }

    /// An upload of which nothing has come yet.
    pub fn new(limits: UploadLimits) -> (r: Self)
        requires
            limits.part_size > 0,
        ensures
            r.wf(),
            r.limits == limits,
            r.phase == Phase::First,
            r.wanted() == Want::Room,
            r.body@.len() == 0,
            r.sent@.len() == 0,
    {
        let r = Upload {
            limits,
            phase: Phase::First,
            buffer: Vec::new(),
            room: false,
            held: Vec::new(),
            last: false,
            hasher: start(),
            total: 0,
            sent: Vec::new(),
            in_flight: 0,
            body: Ghost(Seq::empty()),
        };
        assert(r.body@.take(0) =~= Seq::<u8>::empty());
        assert(r.body@.skip(0) =~= Seq::<u8>::empty());
        r
    }

    /// What the upload needs next. The first part goes out at once; the others
    /// wait until fewer are on their way than may be.
    pub fn wants(&self) -> (r: Want)
        ensures
            r == self.wanted(),
    {
        match self.phase {
            Phase::First | Phase::Reading => if self.room {
                Want::Body
            } else {
                Want::Room
            },
            Phase::Single => Want::Put,
            Phase::Starting => Want::Start,
            Phase::Holding => if self.sent.len() == 0 || self.in_flight
                < self.limits.max_parts_in_flight {
                Want::Send
            } else if self.in_flight > 0 {
                Want::Arrival
            } else {
                Want::Abort
            },
            Phase::Draining => if self.in_flight > 0 {
                Want::Arrival
            } else {
                Want::Complete
            },
            Phase::Aborting => Want::Abort,
            Phase::Stored | Phase::Failed => Want::Nothing,
        }
    }

    /// Takes the first `n` bytes of the buffer as the part at hand.
    fn cut(&mut self, n: usize)
        requires
            old(self).total <= old(self).body@.len() <= u64::MAX,
            absorbed(old(self).hasher) == old(self).body@.take(old(self).total as int),
            old(self).buffer@ == old(self).body@.skip(old(self).total as int),
            n <= old(self).buffer@.len(),
        ensures
            final(self).total == old(self).total + n,
            absorbed(final(self).hasher) == old(self).body@.take(final(self).total as int),
            final(self).buffer@ == old(self).body@.skip(final(self).total as int),
            final(self).held@ == old(self).body@.subrange(
                old(self).total as int,
                final(self).total as int,
            ),
            final(self).limits == old(self).limits,
            final(self).phase == old(self).phase,
            final(self).room == old(self).room,
            final(self).last == old(self).last,
            final(self).sent == old(self).sent,
            final(self).in_flight == old(self).in_flight,
            final(self).body == old(self).body,
    {
        let ghost body = self.body@;
        let ghost from = self.total as int;
        let mut part: Vec<u8> = Vec::new();
        let mut i: usize = 0;
        while i < n
            invariant
                i <= n <= self.buffer@.len(),
                part@ == self.buffer@.take(i as int),
            decreases n - i,
        {
            part.push(self.buffer[i]);
            assert(part@ =~= self.buffer@.take(i as int + 1));
            i += 1;
        }
        let rest = self.buffer.split_off(n);
        self.buffer = rest;
        absorb(&mut self.hasher, part.as_slice());
        self.total = self.total + n as u64;
        self.held = part;
        assert(self.held@ =~= body.subrange(from, from + n));
        assert(body.take(from) + self.held@ =~= body.take(from + n));
        assert(self.buffer@ =~= body.skip(from + n));
    }

    /// Cuts a full part out of the buffer, if it holds one.
    fn settle(&mut self)
        requires
            old(self).phase == Phase::First || old(self).phase == Phase::Reading,
            old(self).limits.part_size > 0,
            old(self).total <= old(self).body@.len() <= u64::MAX,
            absorbed(old(self).hasher) == old(self).body@.take(old(self).total as int),
            old(self).buffer@ == old(self).body@.skip(old(self).total as int),
            old(self).total == old(self).sent@.len() * old(self).limits.part_size,
            !old(self).last,
            old(self).in_flight == on_their_way(old(self).sent@),
            old(self).in_flight <= old(self).limits.max_parts_in_flight || old(self).in_flight <= 1,
            old(self).phase == Phase::First <==> old(self).sent@.len() == 0,
            old(self).room,
        ensures
            final(self).wf(),
            final(self).limits == old(self).limits,
            final(self).body == old(self).body,
            final(self).sent == old(self).sent,
            final(self).in_flight == old(self).in_flight,
            final(self).phase == if old(self).buffer@.len() < old(self).limits.part_size {
                old(self).phase
            } else if old(self).phase == Phase::First {
                Phase::Starting
            } else {
                Phase::Holding
            },
            final(self).room == (old(self).buffer@.len() < old(self).limits.part_size),
    {
        let size: usize = self.limits.part_size;
        if self.buffer.len() >= size {
            let ghost n = self.sent@.len() as int;
            let ghost before = *self;
            self.cut(size);
            self.room = false;
            proof {
                assert((n + 1) * size == n * size + size) by (nonlinear_arith);
                assert(self.held@ == part_at(self.body@, size as int, n));
            }
            if self.sent.len() == 0 {
                assert(self.total == size) by {
                    assert(0 * size == 0) by (nonlinear_arith);
                }
                self.phase = Phase::Starting;
            } else {
                self.phase = Phase::Holding;
            }
        } else {
            proof {
                assert(0 * size == 0) by (nonlinear_arith);
            }
        }
    }

    /// There is room for the next part.
    pub fn granted(&mut self)
        requires
            old(self).wf(),
            old(self).wanted() == Want::Room,
            old(self).body@.len() <= u64::MAX,
        ensures
            final(self).wf(),
            final(self).limits == old(self).limits,
            final(self).body == old(self).body,
            final(self).sent == old(self).sent,
            final(self).in_flight == old(self).in_flight,
            final(self).wanted() == if old(self).buffer@.len() < old(self).limits.part_size {
                Want::Body
            } else if old(self).in_flight < old(self).limits.max_parts_in_flight {
                Want::Send
            } else if old(self).in_flight > 0 {
                Want::Arrival
            } else {
                Want::Abort
            },
    {
        self.room = true;
        proof {
            let size = self.limits.part_size as int;
            assert(0 * size == 0) by (nonlinear_arith);
        }
        self.settle();
    }

    /// More of the body has come.
    pub fn feed(&mut self, chunk: Vec<u8>)
        requires
            old(self).wf(),
            old(self).wanted() == Want::Body,
            old(self).body@.len() + chunk@.len() <= i64::MAX,
        ensures
            final(self).wf(),
            final(self).limits == old(self).limits,
            final(self).body@ == old(self).body@ + chunk@,
            final(self).sent == old(self).sent,
            final(self).in_flight == old(self).in_flight,
            final(self).phase == if old(self).buffer@.len() + chunk@.len()
                < old(self).limits.part_size {
                old(self).phase
            } else if old(self).phase == Phase::First {
                Phase::Starting
            } else {
                Phase::Holding
            },
            final(self).phase == old(self).phase ==> final(self).room,
    {
        let ghost body = self.body@;
        let ghost total = self.total as int;
        let mut chunk = chunk;
        let ghost more = chunk@;
        self.buffer.append(&mut chunk);
        self.body = Ghost(body + more);
        proof {
            let size = self.limits.part_size as int;
            assert(0 * size == 0) by (nonlinear_arith);
            assert((body + more).take(total) =~= body.take(total));
            assert((body + more).skip(total) =~= body.skip(total) + more);
        }
        self.settle();
    }

    /// The body has ended: what is left of it is the last part.
    pub fn end(&mut self)
        requires
            old(self).wf(),
            old(self).wanted() == Want::Body,
            old(self).body@.len() <= i64::MAX,
        ensures
            final(self).wf(),
            final(self).limits == old(self).limits,
            final(self).body == old(self).body,
            final(self).sent == old(self).sent,
            final(self).in_flight == old(self).in_flight,
            final(self).last,
            final(self).phase == if old(self).phase == Phase::First {
                Phase::Single
            } else if old(self).buffer@.len() == 0 {
                Phase::Draining
            } else {
                Phase::Holding
            },
    {
        let ghost n = self.sent@.len() as int;
        let ghost size = self.limits.part_size as int;
        let ghost body = self.body@;
        let ghost total = self.total as int;
        let left: usize = self.buffer.len();
        self.last = true;
        self.room = false;
        if self.phase == Phase::Reading && left == 0 {
            proof {
                assert((n - 1) * size == n * size - size) by (nonlinear_arith);
                assert(body.skip(total).len() == 0);
            }
            self.phase = Phase::Draining;
            return;
        }
        self.cut(left);
        proof {
            assert((n + 1) * size == n * size + size) by (nonlinear_arith);
            assert(0 * size == 0) by (nonlinear_arith);
            assert(body.skip(total).len() == left);
            assert(self.total == body.len());
        }
        if self.phase == Phase::First {
            assert(self.held@ =~= body);
            self.phase = Phase::Single;
        } else {
            assert(self.held@ =~= part_at(body, size, n));
            self.phase = Phase::Holding;
        }
    }

    /// Hands out the whole body, to be stored in one request.
    pub fn take_single(&mut self) -> (r: Vec<u8>)
        requires
            old(self).wf(),
            old(self).wanted() == Want::Put,
        ensures
            r@ == old(self).body@,
            r@.len() < old(self).limits.part_size,
            final(self).body == old(self).body,
            final(self).total == old(self).total,
            final(self).hasher == old(self).hasher,
            final(self).limits == old(self).limits,
            final(self).sent == old(self).sent,
            final(self).phase == Phase::Stored,
            final(self).wf(),
    {
        let mut body: Vec<u8> = Vec::new();
        std::mem::swap(&mut body, &mut self.held);
        self.phase = Phase::Stored;
        body
    }

    /// The store has begun an upload in parts.
    pub fn started(&mut self)
        requires
            old(self).wf(),
            old(self).wanted() == Want::Start,
        ensures
            final(self).wf(),
            *final(self) == (Upload { phase: Phase::Holding, ..*old(self) }),
            final(self).wanted() == Want::Send,
    {
        proof {
            let size = self.limits.part_size as int;
            assert((0 + 1) * size == size) by (nonlinear_arith);
            assert(0 * size == 0) by (nonlinear_arith);
        }
        self.phase = Phase::Holding;
    }

    /// Hands out the part at hand with its number. The numbers count from one.
    pub fn take_part(&mut self) -> (r: (u64, Vec<u8>))
        requires
            old(self).wf(),
            old(self).wanted() == Want::Send,
            old(self).body@.len() <= i64::MAX,
        ensures
            final(self).wf(),
            r.0 == old(self).sent@.len() + 1,
            r.1@ == part_at(
                old(self).body@,
                old(self).limits.part_size as int,
                old(self).sent@.len() as int,
            ),
            final(self).limits == old(self).limits,
            final(self).body == old(self).body,
            final(self).sent@ == old(self).sent@.push(SentPart { arrived: false, tag: None }),
            final(self).in_flight == old(self).in_flight + 1,
            final(self).phase == if old(self).last {
                Phase::Draining
            } else {
                Phase::Reading
            },
            final(self).room == (old(self).room && old(self).last),
    {
        let ghost n = self.sent@.len() as int;
        let ghost size = self.limits.part_size as int;
        let mut part: Vec<u8> = Vec::new();
        std::mem::swap(&mut part, &mut self.held);
        proof {
            all_arrived(self.sent@);
            assert(n <= n * size) by (nonlinear_arith)
                requires
                    size > 0,
                    n >= 0,
            ;
            assert((n + 1) * size == n * size + size) by (nonlinear_arith);
        }
        let count: usize = self.sent.len();
        self.sent.push(SentPart { arrived: false, tag: None });
        assert(self.sent@.drop_last() =~= old(self).sent@);
        self.in_flight = self.in_flight + 1;
        if self.last {
            self.phase = Phase::Draining;
        } else {
            self.room = false;
            self.phase = Phase::Reading;
        }
        (count as u64 + 1, part)
    }

    /// A part has arrived, and the store has given it `tag`. Parts may arrive
    /// in any order.
    pub fn arrived(&mut self, number: u64, tag: Option<String>)
        requires
            old(self).wf(),
            old(self).wanted() == Want::Arrival,
            1 <= number <= old(self).sent@.len(),
            !old(self).sent@[number - 1].arrived,
        ensures
            final(self).wf(),
            final(self).limits == old(self).limits,
            final(self).body == old(self).body,
            final(self).phase == old(self).phase,
            final(self).sent@ == old(self).sent@.update(
                number - 1,
                SentPart { arrived: true, tag },
            ),
            final(self).in_flight == old(self).in_flight - 1,
    {
        let count: usize = self.sent.len();
        assert(number <= count);
        let at: usize = (number - 1) as usize;
        let part = SentPart { arrived: true, tag };
        proof {
            one_arrives(self.sent@, at as int, part);
        }
        self.sent.set(at, part);
        self.in_flight = self.in_flight - 1;
    }

    /// The parts with which the upload is completed, in order of their numbers,
    /// each with its tag. All of the body has been sent and has arrived.
    pub fn complete(&mut self) -> (r: Vec<(u64, Option<String>)>)
        requires
            old(self).wf(),
            old(self).wanted() == Want::Complete,
            old(self).body@.len() <= i64::MAX,
        ensures
            final(self).wf(),
            final(self).phase == Phase::Stored,
            final(self).body == old(self).body,
            final(self).limits == old(self).limits,
            r@.len() == old(self).sent@.len(),
            (r@.len() - 1) * old(self).limits.part_size < old(self).body@.len(),
            old(self).body@.len() <= r@.len() * old(self).limits.part_size,
            forall|i: int|
                0 <= i < r@.len() ==> old(self).sent@[i].arrived && (#[trigger] r@[i]).0 == i + 1
                    && opt_text(r@[i].1) == opt_text(old(self).sent@[i].tag),
    {
        proof {
            all_arrived(self.sent@);
        }
        let mut out: Vec<(u64, Option<String>)> = Vec::new();
        let mut i: usize = 0;
        while i < self.sent.len()
            invariant
                i <= self.sent@.len(),
                out@.len() == i,
                *self == *old(self),
                forall|k: int|
                    0 <= k < i ==> (#[trigger] out@[k]).0 == k + 1 && opt_text(out@[k].1)
                        == opt_text(self.sent@[k].tag),
            decreases self.sent@.len() - i,
        {
            let tag = crate::db::copy_opt(&self.sent[i].tag);
            let number: u64 = i as u64 + 1;
            out.push((number, tag));
            i += 1;
        }
        self.phase = Phase::Stored;
        out
    }

    /// Something failed. Where the store has begun an upload in parts, that
    /// must now be aborted.
    pub fn fail(&mut self)
        requires
            old(self).wf(),
        ensures
            final(self).wf(),
            *final(self) == (Upload {
                phase: match old(self).phase {
                    Phase::First | Phase::Single | Phase::Starting | Phase::Failed => Phase::Failed,
                    Phase::Stored => if old(self).sent@.len() > 0 {
                        Phase::Aborting
                    } else {
                        Phase::Failed
                    },
                    _ => Phase::Aborting,
                },
                ..*old(self)
            }),
    {
        self.phase = match self.phase {
            Phase::First | Phase::Single | Phase::Starting | Phase::Failed => Phase::Failed,
            Phase::Stored => if self.sent.len() > 0 {
                Phase::Aborting
            } else {
                Phase::Failed
            },
            _ => Phase::Aborting,
        };
    }

    /// The digest of exactly what was stored, and its length; `None` unless
    /// the whole body was stored.
    pub fn finish(self) -> (r: Option<(Vec<u8>, u64)>)
        requires
            self.wf(),
        ensures
            match r {
                Some((hash, len)) => self.phase == Phase::Stored && hash@ == sha256(self.body@)
                    && hash@.len() == 32 && len == self.body@.len(),
                None => self.phase != Phase::Stored,
            },
    {
        match self.phase {
            Phase::Stored => {
                assert(self.body@.take(self.total as int) =~= self.body@);
                let total: u64 = self.total;
                Some((finish(self.hasher), total))
            },
            _ => None,
        }
    }
}

/// The parts of a body, put together, are the body, and all but the last have
/// the full size.
pub proof fn parts_make_up_the_body(body: Seq<u8>, size: int, count: int)
    requires
        size > 0,
        count >= 0,
        (count - 1) * size < body.len() <= count * size,
    ensures
        Seq::new(count as nat, |i: int| part_at(body, size, i)).flatten() == body,
        forall|i: int| 0 <= i < count - 1 ==> (#[trigger] part_at(body, size, i)).len() == size,
        count > 0 ==> 0 < part_at(body, size, count - 1).len() <= size,
{
    let parts = Seq::new(count as nat, |i: int| part_at(body, size, i));
    assert forall|i: int| 0 <= i < count - 1 implies (#[trigger] part_at(body, size, i)).len()
        == size by {
        assert(0 <= i * size && (i + 1) * size == i * size + size && (i + 1) * size <= (count - 1)
            * size) by (nonlinear_arith)
            requires
                0 <= i < count - 1,
                size > 0,
        ;
    }
    if count > 0 {
        assert(0 <= (count - 1) * size && count * size == (count - 1) * size + size)
            by (nonlinear_arith)
            requires
                count > 0,
                size > 0,
        ;
    }
    prefix_of_parts(body, size, count, count);
    assert(parts =~= parts.take(count));
    assert(0 * size == 0) by (nonlinear_arith);
    let end = if count * size <= body.len() {
        count * size
    } else {
        body.len() as int
    };
    assert(body.take(end) =~= body);
}

proof fn prefix_of_parts(body: Seq<u8>, size: int, count: int, k: int)
    requires
        size > 0,
        0 <= k <= count,
        (count - 1) * size < body.len() <= count * size,
    ensures
        Seq::new(count as nat, |i: int| part_at(body, size, i)).take(k).flatten() == body.take(
            if k * size <= body.len() {
                k * size
            } else {
                body.len() as int
            },
        ),
    decreases k,
{
    let parts = Seq::new(count as nat, |i: int| part_at(body, size, i));
    assert(0 * size == 0) by (nonlinear_arith);
    if k == 0 {
        assert(parts.take(0) =~= Seq::<Seq<u8>>::empty());
        assert(body.take(0) =~= Seq::<u8>::empty());
    } else {
        prefix_of_parts(body, size, count, k - 1);
        let init = parts.take(k - 1);
        assert(0 <= (k - 1) * size && k * size == (k - 1) * size + size && (k - 1) * size <= (count
            - 1) * size) by (nonlinear_arith)
            requires
                0 < k <= count,
                size > 0,
        ;
        assert(parts.take(k).drop_last() =~= init);
        assert(parts.take(k) =~= init.push(part_at(body, size, k - 1)));
        init.lemma_flatten_push(part_at(body, size, k - 1));
        let end = if k * size <= body.len() {
            k * size
        } else {
            body.len() as int
        };
        assert(body.take((k - 1) * size) + part_at(body, size, k - 1) =~= body.take(end));
    }
}

/// The parts on their way are those that have not arrived: sending one adds one,
/// an arrival takes one off.
pub proof fn parts_on_their_way_are_counted(parts: Seq<SentPart>, i: int, part: SentPart)
    ensures
        !part.arrived ==> on_their_way(parts.push(part)) == on_their_way(parts) + 1,
        part.arrived ==> on_their_way(parts.push(part)) == on_their_way(parts),
        0 <= i < parts.len() && !parts[i].arrived && part.arrived ==> on_their_way(
            parts.update(i, part),
        ) == on_their_way(parts) - 1,
        on_their_way(parts) == 0 <==> forall|i: int|
            0 <= i < parts.len() ==> (#[trigger] parts[i]).arrived,
{
    assert(parts.push(part).drop_last() =~= parts);
    if 0 <= i < parts.len() && !parts[i].arrived && part.arrived {
        one_arrives(parts, i, part);
    }
    all_arrived(parts);
    if forall|i: int| 0 <= i < parts.len() ==> (#[trigger] parts[i]).arrived {
        none_is_on_its_way(parts);
    }
}

proof fn none_is_on_its_way(parts: Seq<SentPart>)
    requires
        forall|i: int| 0 <= i < parts.len() ==> (#[trigger] parts[i]).arrived,
    ensures
        on_their_way(parts) == 0,
    decreases parts.len(),
{
    if parts.len() > 0 {
        assert(parts[parts.len() - 1].arrived);
        assert forall|i: int| 0 <= i < parts.drop_last().len() implies (
        #[trigger] parts.drop_last()[i]).arrived by {
            assert(parts[i].arrived);
        }
        none_is_on_its_way(parts.drop_last());
    }
}

/// An upload goes by its bounds: no part is read before there is room for it,
/// none is sent beyond the number that may be on their way at once, and the
/// upload is completed when all have arrived and not before.
pub proof fn uploads_keep_their_bounds(upload: Upload)
    requires
        upload.wf(),
    ensures
        upload.wanted() is Body ==> upload.room,
        upload.wanted() is Send ==> upload.in_flight < upload.limits.max_parts_in_flight
            || upload.sent@.len() == 0,
        upload.wanted() is Complete ==> forall|i: int|
            0 <= i < upload.sent@.len() ==> (#[trigger] upload.sent@[i]).arrived,
        upload.wanted() is Complete ==> upload.last && upload.total == upload.body@.len()
            && upload.total <= upload.sent@.len() * upload.limits.part_size,
        upload.wanted() is Arrival ==> upload.in_flight > 0,
{
    all_arrived(upload.sent@);
}

/// An upload never waits for what it does not need: a part that is held is sent
/// while another may be on its way, the end is awaited only while something is on
/// its way, and each phase asks for its own step.
pub proof fn uploads_ask_for_the_next_step(upload: Upload)
    requires
        upload.wf(),
    ensures
        upload.phase is Single ==> upload.wanted() is Put,
        upload.phase is Starting ==> upload.wanted() is Start,
        upload.phase is First || upload.phase is Reading ==> (upload.wanted() is Body
            <==> upload.room) && (upload.wanted() is Room <==> !upload.room),
        upload.phase is Holding && upload.in_flight < upload.limits.max_parts_in_flight
            ==> upload.wanted() is Send,
        upload.phase is Holding && upload.in_flight >= upload.limits.max_parts_in_flight
            && upload.in_flight > 0 && upload.sent@.len() > 0 ==> upload.wanted() is Arrival,
        upload.phase is Draining && upload.in_flight == 0 ==> upload.wanted() is Complete,
        upload.phase is Draining && upload.in_flight > 0 ==> upload.wanted() is Arrival,
        upload.phase is Aborting ==> upload.wanted() is Abort,
        upload.phase is Stored || upload.phase is Failed ==> upload.wanted() is Nothing,
{
}

} // verus!
