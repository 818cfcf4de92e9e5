//! Line-boundary-safe chunking of a byte stream.
//!
//! A `Chunker` receives the raw bytes of the input in arbitrary slices and
//! emits line-aligned chunks: every chunk emitted while the stream is still
//! open ends exactly at a newline, and the bytes after the last newline are
//! carried forward to the next chunk. Closing the stream flushes the final
//! carry (with or without a trailing newline) as the last chunk. The
//! concatenation of all emitted chunks is exactly the byte stream received.
//!
//! The caller decides how many bytes to read per call; when `push` returns
//! no chunk the slice contained no newline, and the caller grows its read
//! instead of receiving a chunk that stops mid-line.
use vstd::prelude::*;

verus! {

/// The newline byte that terminates a logical line.
pub open spec fn nl() -> u8 {
    10u8
}

/// True when some byte of `s` is a newline.
pub open spec fn has_newline(s: Seq<u8>) -> bool {
    exists|i: int| 0 <= i < s.len() && s[i] == nl()
}

/// Cuts a byte stream into line-aligned chunks, carrying the bytes after
/// the last newline forward until the next call or the end of the input.
pub struct Chunker {
    carry: Vec<u8>,
    fed: Ghost<Seq<u8>>,
    chunks: Ghost<Seq<Seq<u8>>>,
    closed: Ghost<bool>,
}

impl Chunker {
    /// All bytes received so far, in order.
    pub closed spec fn fed(self) -> Seq<u8> {
        self.fed@
    }

    /// All chunks emitted so far, in order.
    pub closed spec fn emitted(self) -> Seq<Seq<u8>> {
        self.chunks@
    }

    /// The bytes after the last newline, not yet part of any chunk.
    pub closed spec fn carry_bytes(self) -> Seq<u8> {
        self.carry@
    }

    /// Whether the stream has been closed by `finish`.
    pub closed spec fn finished(self) -> bool {
        self.closed@
    }

    /// Invariant: no byte is lost or duplicated (the emitted chunks plus
    /// the carry are exactly the bytes received); every chunk is nonempty;
    /// every chunk but a final flushed one ends at a newline; the carry
    /// never contains a newline while the stream is open, and is empty
    /// once it is closed.
    pub open spec fn wf(self) -> bool {
        &&& self.emitted().flatten() + self.carry_bytes() == self.fed()
        &&& forall|i: int| 0 <= i < self.emitted().len() ==> (#[trigger] self.emitted()[i]).len() > 0
        &&& forall|i: int|
            0 <= i < self.emitted().len() && (i + 1 < self.emitted().len() || !self.finished())
                ==> (#[trigger] self.emitted()[i]).last() == nl()
        &&& (!self.finished() ==> !has_newline(self.carry_bytes()))
        &&& (self.finished() ==> self.carry_bytes().len() == 0)
    }

    /// A fresh chunker: nothing received, nothing emitted.
    pub fn new() -> (r: Chunker)
        ensures
            r.wf(),
            !r.finished(),
            r.fed() == Seq::<u8>::empty(),
            r.emitted() == Seq::<Seq<u8>>::empty(),
            r.carry_bytes() == Seq::<u8>::empty(),
    {
        let r = Chunker {
            carry: Vec::new(),
            fed: Ghost(Seq::empty()),
            chunks: Ghost(Seq::empty()),
            closed: Ghost(false),
        };
        proof {
            assert(r.emitted().flatten() + r.carry_bytes() =~= r.fed());
        }
        r
    }

    /// Receive the next slice of the input. Returns a line-aligned chunk
    /// exactly when the slice brought a newline; otherwise every byte is
    /// held in the carry and the caller should read further.
    pub fn push(&mut self, data: &[u8]) -> (r: Option<Vec<u8>>)
        requires
            old(self).wf(),
            !old(self).finished(),
        ensures
            final(self).wf(),
            !final(self).finished(),
            final(self).fed() == old(self).fed() + data@,
            r is Some <==> has_newline(data@),
            match r {
                Some(c) => {
                    &&& c@ + final(self).carry_bytes() == old(self).carry_bytes() + data@
                    &&& c@.len() > 0
                    &&& c@.last() == nl()
                    &&& final(self).emitted() == old(self).emitted().push(c@)
                },
                None => {
                    &&& final(self).carry_bytes() == old(self).carry_bytes() + data@
                    &&& final(self).emitted() == old(self).emitted()
                },
            },
    {
        let ghost old_carry = self.carry@;
        let ghost fed0 = self.fed@;
        let ghost chunks0 = self.chunks@;
        let mut k: usize = 0;
        while k < data.len()
            invariant
                k <= data.len(),
                self.carry@ == old_carry + data@.take(k as int),
                self.fed@ == fed0,
                self.chunks@ == chunks0,
                self.closed@ == false,
            decreases data.len() - k,
        {
            self.carry.push(data[k]);
            proof {
                assert(old_carry + data@.take(k as int + 1) =~= (old_carry + data@.take(
                    k as int,
                )).push(data@[k as int]));
            }
            k = k + 1;
        }
        proof {
            assert(data@.take(data.len() as int) =~= data@);
            self.fed@ = self.fed@ + data@;
        }
        let ghost all = self.carry@;
        let ghost snap = *self;
        let mut j: usize = self.carry.len();
        while j > 0 && self.carry[j - 1] != 10u8
            invariant
                j <= self.carry.len(),
                *self == snap,
                self.carry@ == all,
                forall|i: int| j <= i < all.len() ==> all[i] != nl(),
            decreases j,
        {
            j = j - 1;
        }
        if j == 0 {
            proof {
                assert(!has_newline(self.carry@));
                assert(forall|i: int|
                    0 <= i < data@.len() ==> data@[i] == all[old_carry.len() + i] && all[old_carry.len()
                        + i] != nl());
                assert(self.emitted().flatten() + self.carry_bytes() =~= self.fed());
            }
            return None;
        }
        let mut chunk: Vec<u8> = Vec::new();
        let mut i: usize = 0;
        while i < j
            invariant
                i <= j <= self.carry@.len(),
                *self == snap,
                self.carry@ == all,
                chunk@ == all.take(i as int),
            decreases j - i,
        {
            proof {
                assert(all.take(i as int + 1) =~= all.take(i as int).push(all[i as int]));
            }
            chunk.push(self.carry[i]);
            i = i + 1;
        }
        let mut rest: Vec<u8> = Vec::new();
        let mut i2: usize = j;
        while i2 < self.carry.len()
            invariant
                j <= i2 <= self.carry@.len(),
                *self == snap,
                self.carry@ == all,
                rest@ == all.subrange(j as int, i2 as int),
            decreases self.carry@.len() - i2,
        {
            proof {
                assert(all.subrange(j as int, i2 as int + 1) =~= all.subrange(
                    j as int,
                    i2 as int,
                ).push(all[i2 as int]));
            }
            rest.push(self.carry[i2]);
            i2 = i2 + 1;
        }
        self.carry = rest;
        proof {
            self.chunks@ = self.chunks@.push(chunk@);
            assert(chunk@ + self.carry@ =~= all);
            assert(chunk@.last() == all[j - 1]);
            assert(has_newline(data@)) by {
                assert(all[j - 1] == nl());
                if j - 1 < old_carry.len() {
                    assert(old_carry[j - 1] == all[j - 1]);
                    assert(false);
                } else {
                    assert(data@[j - 1 - old_carry.len()] == all[j - 1]);
                }
            }
            assert(!has_newline(self.carry@)) by {
                assert(forall|i: int|
                    0 <= i < self.carry@.len() ==> self.carry@[i] == all[j + i] && all[j + i]
                        != nl());
            }
            self.chunks@.drop_last().lemma_flatten_push(chunk@);
            assert(self.chunks@.drop_last() =~= old(self).emitted());
            assert(self.emitted().flatten() + self.carry_bytes() =~= self.fed()) by {
                assert(self.emitted().flatten() == old(self).emitted().flatten() + chunk@);
                assert(old(self).emitted().flatten() + old_carry + data@ =~= self.fed());
                assert((old(self).emitted().flatten() + chunk@) + self.carry@ =~= old(
                    self,
                ).emitted().flatten() + (chunk@ + self.carry@));
            }
        }
        Some(chunk)
    }

    /// Close the stream: flush any final carry as the last chunk, which
    /// need not end at a newline. Afterwards the concatenation of every
    /// emitted chunk is exactly the byte stream received.
    pub fn finish(&mut self) -> (r: Option<Vec<u8>>)
        requires
            old(self).wf(),
            !old(self).finished(),
        ensures
            final(self).wf(),
            final(self).finished(),
            final(self).fed() == old(self).fed(),
            final(self).emitted().flatten() == final(self).fed(),
            match r {
                Some(c) => {
                    &&& c@ == old(self).carry_bytes()
                    &&& c@.len() > 0
                    &&& final(self).emitted() == old(self).emitted().push(c@)
                },
                None => {
                    &&& old(self).carry_bytes().len() == 0
                    &&& final(self).emitted() == old(self).emitted()
                },
            },
    {
        proof {
            self.closed@ = true;
        }
        if self.carry.len() == 0 {
            proof {
                assert(self.emitted().flatten() + self.carry_bytes() =~= self.emitted().flatten());
            }
            return None;
        }
        let mut chunk: Vec<u8> = Vec::new();
        let mut i: usize = 0;
        let ghost all = self.carry@;
        let ghost snap = *self;
        while i < self.carry.len()
            invariant
                i <= self.carry@.len(),
                *self == snap,
                self.carry@ == all,
                chunk@ == all.take(i as int),
            decreases self.carry@.len() - i,
        {
            proof {
                assert(all.take(i as int + 1) =~= all.take(i as int).push(all[i as int]));
            }
            chunk.push(self.carry[i]);
            i = i + 1;
        }
        self.carry = Vec::new();
        proof {
            assert(chunk@ =~= all);
            self.chunks@ = self.chunks@.push(chunk@);
            self.chunks@.drop_last().lemma_flatten_push(chunk@);
            assert(self.chunks@.drop_last() =~= old(self).emitted());
            assert(self.emitted().flatten() =~= self.fed()) by {
                assert(self.emitted().flatten() == old(self).emitted().flatten() + chunk@);
                assert(old(self).emitted().flatten() + all =~= self.fed());
            }
            assert(self.emitted().flatten() + self.carry_bytes() =~= self.fed());
        }
        Some(chunk)
    }
}

/// Every chunk emitted before the stream was closed, and every chunk but
/// the last in any case, ends exactly at a newline: no chunk stops inside
/// a line.
pub proof fn lemma_chunks_line_aligned(c: Chunker, i: int)
    requires
        c.wf(),
        0 <= i < c.emitted().len(),
        i + 1 < c.emitted().len() || !c.finished(),
    ensures
        c.emitted()[i].len() > 0,
        c.emitted()[i].last() == nl(),
{
}

} // verus!
