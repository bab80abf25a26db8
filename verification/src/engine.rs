//! Windowed block-transfer state machine of one firmware-update session.
//!
//! The engine owns the acknowledgment bookkeeping and decides, round by
//! round, what the host sends next: a block awaiting retransmission takes
//! precedence over new data, the frontier advances only while it stays within
//! the window of the last acknowledged index, and a done request is offered
//! only once every block has been sent and none awaits retransmission.
use vstd::prelude::*;

use crate::digest::sha256;
use crate::digest::sha256_of;
use crate::messages::GatewayError;
use crate::messages::GatewayPacket;
use crate::messages::HostPacket;
use crate::messages::OtaData;
use crate::messages::OtaInitRequest;
use vstd::arithmetic::div_mod::lemma_fundamental_div_mod;
use vstd::arithmetic::div_mod::lemma_mod_division_less_than_divisor;
use vstd::arithmetic::mul::lemma_mul_inequality;

verus! {

/// Maximum number of blocks sent but not yet acknowledged.
pub const WINDOW: u16 = 12;

/// Block size the transport uses unless configured otherwise.
pub const DEFAULT_BLOCK_SIZE: u16 = 64;

/// Long timeout of the query/abort/init handshake steps, in milliseconds:
/// remote-side cleanup may be slow.
pub const INIT_TIMEOUT_MS: u64 = 30000;

/// Short timeout of one transfer-round receive, in milliseconds.
pub const RESPONSE_TIMEOUT_MS: u64 = 3000;

/// Default read timeout of the link driver, in milliseconds.
pub const DEFAULT_READ_TIMEOUT_MS: u64 = 100;

/// Delay after a processed status response, rate-limiting the loop, in
/// milliseconds.
pub const STATUS_DELAY_MS: u64 = 150;

/// Number of blocks needed to cover `len` bytes: the division rounded up.
pub open spec fn block_count_spec(len: int, block_size: int) -> int {
    if len % block_size == 0 {
        len / block_size
    } else {
        len / block_size + 1
    }
}

/// Bytes of block `i`: the half-open slice from `i * block_size` up to the
/// smaller of `(i + 1) * block_size` and the image length.
pub open spec fn block_spec(image: Seq<u8>, block_size: int, i: int) -> Seq<u8> {
    let begin = i * block_size;
    let end = if (i + 1) * block_size <= image.len() {
        (i + 1) * block_size
    } else {
        image.len() as int
    };
    image.subrange(begin, end)
}

/// The block partition is well defined: the blocks cover the image exactly,
/// and every index below the count begins strictly inside the image.
pub proof fn lemma_block_count_bounds(len: int, block_size: int)
    requires
        block_size > 0,
        len >= 0,
    ensures
        block_count_spec(len, block_size) >= 0,
        len <= block_count_spec(len, block_size) * block_size,
        (block_count_spec(len, block_size) - 1) * block_size < len,
        len == 0 ==> block_count_spec(len, block_size) == 0,
        len > 0 ==> block_count_spec(len, block_size) > 0,
{
    let q = len / block_size;
    let r = len % block_size;
    lemma_fundamental_div_mod(len, block_size);
    lemma_mod_division_less_than_divisor(len, block_size);
    assert(q >= 0) by (nonlinear_arith)
        requires
            len == block_size * q + r,
            0 <= r < block_size,
            len >= 0,
            block_size > 0,
    ;
    if r == 0 {
        assert(len <= q * block_size && (q - 1) * block_size < len && (len > 0 ==> q > 0))
            by (nonlinear_arith)
            requires
                len == block_size * q,
                block_size > 0,
                q >= 0,
        ;
    } else {
        assert(len <= (q + 1) * block_size && q * block_size < len) by (nonlinear_arith)
            requires
                len == block_size * q + r,
                0 < r < block_size,
        ;
    }
}

/// The blocks tile the image exactly: every block below the count is
/// non-empty, every block but the last is full, block `i` holds precisely the
/// image bytes from `i * block_size` on, and the last block ends at the
/// image's end — no byte is dropped.
pub proof fn lemma_block_partition(image: Seq<u8>, block_size: int, i: int)
    requires
        block_size > 0,
        0 <= i < block_count_spec(image.len() as int, block_size),
    ensures
        1 <= block_spec(image, block_size, i).len() <= block_size,
        i < block_count_spec(image.len() as int, block_size) - 1 ==> block_spec(
            image,
            block_size,
            i,
        ).len() == block_size,
        forall|j: int|
            0 <= j < block_spec(image, block_size, i).len() ==> block_spec(image, block_size, i)[j]
                == image[i * block_size + j],
        i == block_count_spec(image.len() as int, block_size) - 1 ==> i * block_size + block_spec(
            image,
            block_size,
            i,
        ).len() == image.len(),
{
    let len = image.len() as int;
    let count = block_count_spec(len, block_size);
    lemma_block_count_bounds(len, block_size);
    lemma_mul_inequality(i, count - 1, block_size);
    assert((i + 1) * block_size == i * block_size + block_size) by (nonlinear_arith);
    if i < count - 1 {
        lemma_mul_inequality(i + 1, count - 1, block_size);
    }
    if i == count - 1 {
        assert(count * block_size == i * block_size + block_size) by (nonlinear_arith)
            requires
                i == count - 1,
        ;
    }
}

/// One firmware-update session: the image, its block partition, and the
/// acknowledgment state of the transfer loop.
#[derive(Debug)]
pub struct OtaSession {
    /// The firmware image being transferred.
    pub image: Vec<u8>,
    /// Size of every block but possibly the last.
    pub block_size: u16,
    /// Number of blocks covering the image.
    pub block_count: u16,
    /// The frontier: smallest index not yet sent for the first time.
    pub highest_index: u16,
    /// Highest index the module has acknowledged so far.
    pub last_acked_index: u16,
    /// Indices the module reported as not received, pending retransmission;
    /// no index appears twice.
    pub indexes_to_transmit: Vec<u16>,
}

/// What a transfer round's response did to the session.
#[derive(Clone, Copy, Debug, PartialEq, Eq, Structural)]
pub enum RoundOutcome {
    /// The module acknowledged completion: the transfer is over.
    Finished,
    /// A status report was folded into the session's bookkeeping.
    Acknowledged,
    /// A timeout or an unexpected response: the round is simply retried.
    Retry,
}

/// The transition one status report makes on a session: the acknowledgment
/// frontier keeps its maximum, and the reported missing indices are merged,
/// deduplicated, into the retransmission backlog.
pub open spec fn status_applied(
    pre: OtaSession,
    post: OtaSession,
    acked: u16,
    reported: Seq<u16>,
) -> bool {
    &&& post.image@ == pre.image@
    &&& post.block_size == pre.block_size
    &&& post.block_count == pre.block_count
    &&& post.highest_index == pre.highest_index
    &&& post.last_acked_index == (if acked > pre.last_acked_index {
        acked
    } else {
        pre.last_acked_index
    })
    &&& post.indexes_to_transmit@ == merge_nacks(
        pre.indexes_to_transmit@,
        reported,
        pre.block_count,
    )
}

/// The retransmission backlog after a report of missing indices: each
/// reported index that addresses a real block and is not yet in the backlog
/// is appended, in reported order.
pub open spec fn merge_nacks(cur: Seq<u16>, reported: Seq<u16>, count: u16) -> Seq<u16>
    decreases reported.len(),
{
    if reported.len() == 0 {
        cur
    } else {
        let n = reported[0];
        let cur2 = if n < count && !cur.contains(n) {
            cur.push(n)
        } else {
            cur
        };
        merge_nacks(cur2, reported.drop_first(), count)
    }
}

impl OtaSession {
    /// Internal consistency of a session: the block count partitions the
    /// image, the frontier never passes the count nor outruns the last
    /// acknowledged index by more than the window, and the retransmission
    /// backlog holds valid block indices without duplicates.
    pub open spec fn wf(self) -> bool {
        &&& self.block_size > 0
        &&& self.image@.len() <= u32::MAX
        &&& self.block_count as int == block_count_spec(
            self.image@.len() as int,
            self.block_size as int,
        )
        &&& self.highest_index <= self.block_count
        &&& self.highest_index as int <= self.last_acked_index as int + WINDOW as int + 1
        &&& forall|k: int|
            0 <= k < self.indexes_to_transmit@.len() ==> self.indexes_to_transmit@[k]
                < self.block_count
        &&& forall|k: int, l: int|
            0 <= k < l < self.indexes_to_transmit@.len() ==> self.indexes_to_transmit@[k]
                != self.indexes_to_transmit@[l]
    }

    /// Starts a session over one image. Fails with `Overflow` exactly when
    /// the image is too large for the wire format: its length must fit the
    /// init request's size field and its block count the index fields.
    pub fn new(image: Vec<u8>, block_size: u16) -> (r: Result<OtaSession, GatewayError>)
        requires
            block_size > 0,
        ensures
            r is Ok <==> (image@.len() <= u32::MAX && block_count_spec(
                image@.len() as int,
                block_size as int,
            ) <= u16::MAX),
            r matches Ok(s) ==> {
                &&& s.wf()
                &&& s.image@ == image@
                &&& s.block_size == block_size
                &&& s.highest_index == 0
                &&& s.last_acked_index == 0
                &&& s.indexes_to_transmit@ == Seq::<u16>::empty()
            },
            r matches Err(e) ==> e == GatewayError::Overflow,
    {
        if image.len() > u32::MAX as usize {
            return Err(GatewayError::Overflow);
        }
        let bs = block_size as usize;
        let q = image.len() / bs;
        let r = image.len() % bs;
        proof {
            lemma_fundamental_div_mod(image.len() as int, bs as int);
            if r != 0 {
                assert(q < image.len()) by (nonlinear_arith)
                    requires
                        image.len() == bs * q + r,
                        r >= 1,
                        bs >= 1,
                        q >= 0,
                ;
            }
        }
        let count = if r == 0 {
            q
        } else {
            q + 1
        };
        if count > u16::MAX as usize {
            return Err(GatewayError::Overflow);
        }
        Ok(
            OtaSession {
                image,
                block_size,
                block_count: count as u16,
                highest_index: 0,
                last_acked_index: 0,
                indexes_to_transmit: Vec::new(),
            },
        )
    }

    /// Copies the bytes of block `i` out of the image, by the half-open
    /// interval formula: the last block ends at the image's end.
    pub fn block_at(&self, i: u16) -> (b: Vec<u8>)
        requires
            self.wf(),
            i < self.block_count,
        ensures
            b@ == block_spec(self.image@, self.block_size as int, i as int),
            1 <= b@.len() <= self.block_size,
    {
        proof {
            lemma_block_count_bounds(self.image@.len() as int, self.block_size as int);
            lemma_mul_inequality(
                i as int,
                self.block_count as int - 1,
                self.block_size as int,
            );
            assert((i as int + 1) * (self.block_size as int) == i as int * (
            self.block_size as int) + self.block_size as int) by (nonlinear_arith);
        }
        let bs = self.block_size as usize;
        let begin = (i as usize) * bs;
        let len = self.image.len();
        let end = if len - begin >= bs {
            begin + bs
        } else {
            len
        };
        let mut b: Vec<u8> = Vec::new();
        let mut j = begin;
        proof {
            assert(self.image@.subrange(begin as int, begin as int) =~= Seq::<u8>::empty());
        }
        while j < end
            invariant
                begin <= j <= end <= self.image@.len(),
                b@ == self.image@.subrange(begin as int, j as int),
            decreases end - j,
        {
            b.push(self.image[j]);
            proof {
                assert(self.image@.subrange(begin as int, j as int + 1) =~= self.image@.subrange(
                    begin as int,
                    j as int,
                ).push(self.image@[j as int]));
            }
            j = j + 1;
        }
        b
    }

    /// Decides and prepares the one send of a round. A block pending
    /// retransmission takes precedence; otherwise the frontier block is sent,
    /// and the frontier advances only while it stays within the window of the
    /// last acknowledged index; a done request is offered exactly when every
    /// block has been sent and none awaits retransmission.
    pub fn next_send(&mut self) -> (p: HostPacket)
        requires
            old(self).wf(),
        ensures
            final(self).wf(),
            final(self).image@ == old(self).image@,
            final(self).block_size == old(self).block_size,
            final(self).block_count == old(self).block_count,
            final(self).last_acked_index == old(self).last_acked_index,
            p is OtaDoneRequest <==> (old(self).indexes_to_transmit@.len() == 0 && old(
                self,
            ).highest_index == old(self).block_count),
            old(self).indexes_to_transmit@.len() > 0 ==> {
                &&& final(self).indexes_to_transmit@ == old(self).indexes_to_transmit@.drop_last()
                &&& final(self).highest_index == old(self).highest_index
                &&& (p matches HostPacket::OtaData(d) && d.index == old(
                    self,
                ).indexes_to_transmit@.last() && d.data@ == block_spec(
                    old(self).image@,
                    old(self).block_size as int,
                    old(self).indexes_to_transmit@.last() as int,
                ))
            },
            old(self).indexes_to_transmit@.len() == 0 && old(self).highest_index < old(
                self,
            ).block_count ==> {
                &&& final(self).indexes_to_transmit@ == old(self).indexes_to_transmit@
                &&& final(self).highest_index as int == (if old(self).last_acked_index as int
                    + WINDOW as int >= old(self).highest_index as int {
                    old(self).highest_index as int + 1
                } else {
                    old(self).highest_index as int
                })
                &&& (p matches HostPacket::OtaData(d) && d.index == old(self).highest_index
                    && d.data@ == block_spec(
                    old(self).image@,
                    old(self).block_size as int,
                    old(self).highest_index as int,
                ))
            },
            old(self).indexes_to_transmit@.len() == 0 && old(self).highest_index == old(
                self,
            ).block_count ==> {
                &&& final(self).indexes_to_transmit@ == old(self).indexes_to_transmit@
                &&& final(self).highest_index == old(self).highest_index
            },
    {
        match self.indexes_to_transmit.pop() {
            Some(i) => {
                let data = self.block_at(i);
                HostPacket::OtaData(OtaData { index: i, data })
            },
            None => {
                if self.highest_index < self.block_count {
                    let i = self.highest_index;
                    let data = self.block_at(i);
                    if self.last_acked_index as u32 + WINDOW as u32 >= self.highest_index as u32 {
                        self.highest_index = self.highest_index + 1;
                    }
                    HostPacket::OtaData(OtaData { index: i, data })
                } else {
                    HostPacket::OtaDoneRequest
                }
            },
        }
    }

    /// Folds one status report into the session: the acknowledgment index
    /// keeps its maximum, and reported missing indices join the backlog,
    /// deduplicated; a reported index outside the block range is discarded.
    pub fn apply_status(&mut self, last_acked: u16, not_acked: &Vec<u16>)
        requires
            old(self).wf(),
        ensures
            final(self).wf(),
            status_applied(*old(self), *final(self), last_acked, not_acked@),
    {
        let ghost orig = *self;
        let mut k: usize = 0;
        proof {
            assert(not_acked@.skip(0) =~= not_acked@);
        }
        while k < not_acked.len()
            invariant
                0 <= k <= not_acked@.len(),
                self.image@ == orig.image@,
                self.block_size == orig.block_size,
                self.block_count == orig.block_count,
                self.highest_index == orig.highest_index,
                self.last_acked_index == orig.last_acked_index,
                orig.wf(),
                forall|x: int|
                    0 <= x < self.indexes_to_transmit@.len() ==> self.indexes_to_transmit@[x]
                        < self.block_count,
                forall|x: int, y: int|
                    0 <= x < y < self.indexes_to_transmit@.len() ==> self.indexes_to_transmit@[x]
                        != self.indexes_to_transmit@[y],
                merge_nacks(self.indexes_to_transmit@, not_acked@.skip(k as int), self.block_count)
                    == merge_nacks(orig.indexes_to_transmit@, not_acked@, orig.block_count),
            decreases not_acked@.len() - k,
        {
            let na = not_acked[k];
            proof {
                assert(not_acked@.skip(k as int).drop_first() =~= not_acked@.skip(k as int + 1));
                assert(not_acked@.skip(k as int)[0] == na);
            }
            if na < self.block_count && !contains_index(&self.indexes_to_transmit, na) {
                self.indexes_to_transmit.push(na);
            }
            k = k + 1;
        }
        proof {
            assert(not_acked@.skip(not_acked@.len() as int) =~= Seq::<u16>::empty());
        }
        if last_acked > self.last_acked_index {
            self.last_acked_index = last_acked;
        }
    }

    /// Digests one round's response: a done acknowledgment finishes the
    /// transfer, a status report is folded into the session, and a timeout
    /// (`None`) or any other response changes nothing — the round is retried.
    pub fn process_response(&mut self, resp: Option<&GatewayPacket>) -> (r: RoundOutcome)
        requires
            old(self).wf(),
        ensures
            final(self).wf(),
            final(self).image@ == old(self).image@,
            final(self).block_size == old(self).block_size,
            final(self).block_count == old(self).block_count,
            final(self).highest_index == old(self).highest_index,
            r == RoundOutcome::Finished <==> (resp matches Some(p) && p is OtaDoneAck),
            r == RoundOutcome::Acknowledged <==> (resp matches Some(p) && p is OtaStatus),
            resp matches Some(p) ==> (p matches GatewayPacket::OtaStatus(s) ==> status_applied(
                *old(self),
                *final(self),
                s.last_acked,
                s.not_acked@,
            )),
            r != RoundOutcome::Acknowledged ==> final(self).last_acked_index == old(
                self,
            ).last_acked_index && final(self).indexes_to_transmit@ == old(
                self,
            ).indexes_to_transmit@,
    {
        match resp {
            Some(GatewayPacket::OtaDoneAck) => RoundOutcome::Finished,
            Some(GatewayPacket::OtaStatus(s)) => {
                self.apply_status(s.last_acked, &s.not_acked);
                RoundOutcome::Acknowledged
            },
            _ => RoundOutcome::Retry,
        }
    }

    /// Builds the init request announcing this session: the image length, its
    /// SHA-256 content hash, and the block partition.
    pub fn build_init_request(&self, destination_address: usize) -> (r: OtaInitRequest)
        requires
            self.wf(),
        ensures
            r.destination_address == destination_address,
            r.binary_size == self.image@.len(),
            r.binary_sha256@ == sha256_of(self.image@),
            r.block_size == self.block_size,
            r.block_count == self.block_count,
    {
        OtaInitRequest {
            destination_address,
            binary_size: self.image.len() as u32,
            binary_sha256: sha256(self.image.as_slice()),
            block_size: self.block_size,
            block_count: self.block_count,
        }
    }
}

/// Whether an index is already in the backlog.
fn contains_index(v: &Vec<u16>, x: u16) -> (r: bool)
    ensures
        r == v@.contains(x),
{
    let mut k: usize = 0;
    while k < v.len()
        invariant
            0 <= k <= v@.len(),
            forall|j: int| 0 <= j < k ==> v@[j] != x,
        decreases v@.len() - k,
    {
        if v[k] == x {
            proof {
                assert(v@.contains(x)) by {
                    assert(v@[k as int] == x);
                }
            }
            return true;
        }
        k = k + 1;
    }
    false
}

/// Window bound law: a well-formed session's frontier never outruns the last
/// acknowledged index by more than the window plus the one frontier block in
/// flight. No transmitted index ever exceeds `last_acked_index + WINDOW + 1`,
/// and every index the frontier has passed exceeds it by at most `WINDOW`.
pub proof fn lemma_window_bound(s: OtaSession)
    requires
        s.wf(),
    ensures
        s.highest_index as int <= s.last_acked_index as int + WINDOW as int + 1,
        s.highest_index > 0 ==> s.highest_index as int - 1 <= s.last_acked_index as int
            + WINDOW as int,
{
}

/// An element is in the merged backlog exactly when it was already there or
/// was reported and addresses a real block.
pub proof fn lemma_merge_nacks_contains(cur: Seq<u16>, reported: Seq<u16>, count: u16, x: u16)
    ensures
        merge_nacks(cur, reported, count).contains(x) <==> (cur.contains(x) || (reported.contains(
            x,
        ) && x < count)),
    decreases reported.len(),
{
    if reported.len() == 0 {
        assert(!reported.contains(x));
    } else {
        let n = reported[0];
        let cur2 = if n < count && !cur.contains(n) {
            cur.push(n)
        } else {
            cur
        };
        lemma_merge_nacks_contains(cur2, reported.drop_first(), count, x);
        lemma_push_contains(cur, n, x);
        assert(reported.contains(x) <==> (x == n || reported.drop_first().contains(x))) by {
            lemma_head_or_tail_contains(reported, x);
        }
    }
}

/// Merging a report whose valid indices are all in the backlog already
/// changes nothing.
pub proof fn lemma_merge_nacks_noop(cur: Seq<u16>, reported: Seq<u16>, count: u16)
    requires
        forall|j: int|
            0 <= j < reported.len() && reported[j] < count ==> cur.contains(#[trigger] reported[j]),
    ensures
        merge_nacks(cur, reported, count) == cur,
    decreases reported.len(),
{
    if reported.len() > 0 {
        assert(reported[0] < count ==> cur.contains(reported[0]));
        assert(forall|j: int|
            0 <= j < reported.drop_first().len() && reported.drop_first()[j] < count
                ==> cur.contains(#[trigger] reported.drop_first()[j])) by {
            assert(forall|j: int|
                0 <= j < reported.drop_first().len() ==> reported.drop_first()[j] == reported[j
                    + 1]);
        }
        lemma_merge_nacks_noop(cur, reported.drop_first(), count);
    }
}

/// Idempotent retransmission feedback: applying the same status report to a
/// session twice leaves it exactly where applying it once did — the module's
/// acknowledgment is index-keyed, not count-keyed, and so is the backlog.
pub proof fn lemma_status_idempotent(
    a: OtaSession,
    b: OtaSession,
    c: OtaSession,
    acked: u16,
    reported: Seq<u16>,
)
    requires
        status_applied(a, b, acked, reported),
        status_applied(b, c, acked, reported),
    ensures
        c.image@ == b.image@,
        c.block_size == b.block_size,
        c.block_count == b.block_count,
        c.highest_index == b.highest_index,
        c.last_acked_index == b.last_acked_index,
        c.indexes_to_transmit@ == b.indexes_to_transmit@,
{
    let merged = merge_nacks(a.indexes_to_transmit@, reported, a.block_count);
    assert(forall|j: int|
        0 <= j < reported.len() && reported[j] < a.block_count ==> merged.contains(
            #[trigger] reported[j],
        )) by {
        assert forall|j: int|
            0 <= j < reported.len() && reported[j] < a.block_count implies merged.contains(
            reported[j],
        ) by {
            assert(reported.contains(reported[j]));
            lemma_merge_nacks_contains(
                a.indexes_to_transmit@,
                reported,
                a.block_count,
                reported[j],
            );
        }
    }
    lemma_merge_nacks_noop(merged, reported, a.block_count);
}

/// Appending one element adds exactly that element to a sequence's contents.
proof fn lemma_push_contains(s: Seq<u16>, n: u16, x: u16)
    ensures
        s.push(n).contains(x) <==> (s.contains(x) || x == n),
{
    if s.contains(x) {
        let w = choose|w: int| 0 <= w < s.len() && s[w] == x;
        assert(s.push(n)[w] == x);
    }
    if x == n {
        assert(s.push(n)[s.len() as int] == x);
    }
    if s.push(n).contains(x) && x != n {
        let w = choose|w: int| 0 <= w < s.push(n).len() && s.push(n)[w] == x;
        assert(s[w] == x);
    }
}

/// A sequence's contents are its first element and its remainder's contents.
proof fn lemma_head_or_tail_contains(s: Seq<u16>, x: u16)
    requires
        s.len() > 0,
    ensures
        s.contains(x) <==> (x == s[0] || s.drop_first().contains(x)),
{
    if s.contains(x) {
        let w = choose|w: int| 0 <= w < s.len() && s[w] == x;
        if w > 0 {
            assert(s.drop_first()[w - 1] == x);
        }
    }
    if s.drop_first().contains(x) {
        let w = choose|w: int| 0 <= w < s.drop_first().len() && s.drop_first()[w] == x;
        assert(s[w + 1] == x);
    }
}

} // verus!
