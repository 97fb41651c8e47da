//! Type-erased component storage: one densely packed byte buffer per
//! component kind.
//!
//! A blob is an array of fixed-width records. Record `i` owns the byte range
//! `i * width .. (i + 1) * width` of the buffer, and its owning entity handle
//! is kept alongside at the same index, so the buffer length is always an
//! exact multiple of the record width. At most one record exists per handle.
//! Removal swaps the doomed record with the last one and truncates, so the
//! order of the surviving records is not preserved, but which (handle,
//! payload) pairs exist is.

use vstd::prelude::*;

use vstd::arithmetic::div_mod::lemma_mod_multiples_basic;
use vstd::arithmetic::mul::lemma_mul_inequality;

verus! {

/// A packed array of fixed-width byte records, each owned by an entity handle.
pub struct ComponentBlob {
    width: usize,
    handles: Vec<u32>,
    bytes: Vec<u8>,
}

impl ComponentBlob {
    /// Width in bytes of one record's payload.
    pub closed spec fn width(self) -> int {
        self.width as int
    }

    /// Number of records currently stored.
    pub closed spec fn count(self) -> int {
        self.handles@.len() as int
    }

    /// Length in bytes of the packed buffer.
    pub closed spec fn byte_len(self) -> int {
        self.bytes@.len() as int
    }

    /// The handle owning record `i`.
    pub closed spec fn handle_at(self, i: int) -> u32 {
        self.handles@[i]
    }

    /// The payload bytes of record `i`.
    pub closed spec fn payload_at(self, i: int) -> Seq<u8> {
        self.bytes@.subrange(i * self.width(), (i + 1) * self.width())
    }

    /// Some record is owned by handle `h`.
    pub open spec fn has(self, h: u32) -> bool {
        exists|i: int| 0 <= i < self.count() && self.handle_at(i) == h
    }

    /// The position of handle `h`'s record (meaningful only when `has(h)`).
    pub open spec fn index_of(self, h: u32) -> int {
        choose|i: int| 0 <= i < self.count() && self.handle_at(i) == h
    }

    /// The payload stored for handle `h` (meaningful only when `has(h)`).
    pub open spec fn payload_of(self, h: u32) -> Seq<u8> {
        self.payload_at(self.index_of(h))
    }

    /// Structural invariant: positive width, buffer length exactly
    /// `count * width`, and no handle owns two records.
    pub closed spec fn wf(self) -> bool {
        &&& self.width >= 1
        &&& self.bytes@.len() == self.count() * self.width()
        &&& forall|a: int, b: int|
            0 <= a < b < self.count() ==> #[trigger] self.handles@[a] != #[trigger] self.handles@[b]
    }

    /// The record positions of one handle are unique.
    proof fn lemma_index_unique(self, i: int, h: u32)
        requires
            self.wf(),
            0 <= i < self.count(),
            self.handle_at(i) == h,
        ensures
            self.index_of(h) == i,
            self.has(h),
    {
        assert(self.has(h));
        let j = self.index_of(h);
        if j != i {
            if j < i {
                assert(self.handles@[j] != self.handles@[i]);
            } else {
                assert(self.handles@[i] != self.handles@[j]);
            }
        }
    }

    /// Record `i`'s byte range lies inside the buffer.
    proof fn lemma_record_in_bounds(self, i: int)
        requires
            self.wf(),
            0 <= i < self.count(),
        ensures
            0 <= i * self.width(),
            (i + 1) * self.width() <= self.byte_len(),
            i * self.width() + self.width() == (i + 1) * self.width(),
            self.byte_len() <= usize::MAX,
    {
        lemma_mul_inequality(0, i, self.width());
        lemma_mul_inequality(i + 1, self.count(), self.width());
        assert(i * self.width() + self.width() == (i + 1) * self.width())
            by (nonlinear_arith);
        assert(self.bytes.len() == self.bytes@.len());
    }

    /// The buffer length is always an exact multiple of the record width.
    pub proof fn lemma_len_multiple(self)
        requires
            self.wf(),
        ensures
            self.byte_len() % self.width() == 0,
    {
        lemma_mod_multiples_basic(self.count(), self.width());
    }

    /// An empty blob for records of `width` payload bytes.
    pub fn new(width: usize) -> (b: ComponentBlob)
        requires
            width >= 1,
        ensures
            b.wf(),
            b.width() == width,
            b.count() == 0,
            b.byte_len() == 0,
            forall|h: u32| !b.has(h),
    {
        let b = ComponentBlob { width, handles: Vec::new(), bytes: Vec::new() };
        proof {
            assert(b.count() * b.width() == 0) by (nonlinear_arith)
                requires b.count() == 0;
        }
        b
    }

    /// Discards every record, keeping the record width.
    pub fn clear(&mut self)
        requires
            old(self).wf(),
        ensures
            final(self).wf(),
            final(self).width() == old(self).width(),
            final(self).count() == 0,
            final(self).byte_len() == 0,
            forall|h: u32| !final(self).has(h),
    {
        self.handles.clear();
        self.bytes.clear();
        proof {
            assert(self.count() * self.width() == 0) by (nonlinear_arith)
                requires self.count() == 0;
        }
    }

    /// Linear scan for the record owned by `h`; `None` exactly when absent.
    pub fn find(&self, h: u32) -> (r: Option<usize>)
        requires
            self.wf(),
        ensures
            match r {
                Some(i) => self.has(h) && i as int == self.index_of(h) && i < self.count(),
                None => !self.has(h),
            },
    {
        let mut i: usize = 0;
        let n = self.handles.len();
        while i < n
            invariant
                self.wf(),
                n == self.count(),
                i <= n,
                forall|j: int| 0 <= j < i ==> self.handle_at(j) != h,
            decreases n - i,
        {
            if self.handles[i] == h {
                proof {
                    self.lemma_index_unique(i as int, h);
                }
                return Some(i);
            }
            i = i + 1;
        }
        None
    }

    /// Appends a record `{h, payload}` at the end of the buffer.
    /// Every existing record keeps its position and bytes.
    pub fn push_record(&mut self, h: u32, payload: &Vec<u8>)
        requires
            old(self).wf(),
            !old(self).has(h),
            payload@.len() == old(self).width(),
            old(self).byte_len() + old(self).width() <= usize::MAX,
        ensures
            final(self).wf(),
            final(self).width() == old(self).width(),
            final(self).count() == old(self).count() + 1,
            final(self).byte_len() == old(self).byte_len() + old(self).width(),
            final(self).handle_at(old(self).count()) == h,
            final(self).payload_at(old(self).count()) == payload@,
            forall|i: int|
                0 <= i < old(self).count() ==> #[trigger] final(self).handle_at(i)
                    == old(self).handle_at(i) && #[trigger] final(self).payload_at(i)
                    == old(self).payload_at(i),
            final(self).has(h),
            final(self).payload_of(h) == payload@,
            forall|h2: u32|
                h2 != h ==> (#[trigger] final(self).has(h2) == old(self).has(h2) && (old(self).has(
                    h2,
                ) ==> final(self).payload_of(h2) == old(self).payload_of(h2))),
    {
        let ghost old_self = *old(self);
        let ghost old_bytes = self.bytes@;
        let ghost n = self.count();
        let w = self.width;
        self.handles.push(h);
        let mut j: usize = 0;
        while j < w
            invariant
                j <= w,
                w == old_self.width(),
                payload@.len() == w,
                self.bytes@ == old_bytes + payload@.subrange(0, j as int),
                self.width == old_self.width,
                self.handles@ == old_self.handles@.push(h),
            decreases w - j,
        {
            self.bytes.push(payload[j]);
            proof {
                assert(self.bytes@ =~= old_bytes + payload@.subrange(0, j + 1));
            }
            j = j + 1;
        }
        proof {
            assert(self.bytes@ =~= old_bytes + payload@);
            assert(old_bytes.len() == n * self.width());
            assert((n + 1) * self.width() == n * self.width() + self.width())
                by (nonlinear_arith);
            assert(self.wf()) by {
                assert forall|a: int, b: int| 0 <= a < b < self.count() implies self.handles@[a]
                    != self.handles@[b] by {
                    if b == self.count() - 1 {
                        assert(self.handles@[b] == h);
                        assert(old_self.handle_at(a) == self.handles@[a]);
                        if self.handles@[a] == h {
                            old_self.lemma_index_unique(a, h);
                        }
                    }
                }
            }
            assert forall|i: int| 0 <= i < n implies self.handle_at(i) == old_self.handle_at(
                i,
            ) && self.payload_at(i) == old_self.payload_at(i) by {
                old_self.lemma_record_in_bounds(i);
                assert(self.payload_at(i) =~= old_self.payload_at(i));
            }
            self.lemma_record_in_bounds(n);
            assert(self.payload_at(n) =~= payload@);
            self.lemma_index_unique(n, h);
            assert forall|h2: u32| h2 != h && old_self.has(h2) implies self.has(h2)
                && self.payload_of(h2) == old_self.payload_of(h2) by {
                let i = old_self.index_of(h2);
                self.lemma_index_unique(i, h2);
            }
            assert forall|h2: u32| h2 != h && self.has(h2) implies old_self.has(h2) by {
                let i = self.index_of(h2);
                assert(i < n + 1);
                assert(self.handle_at(n) == h);
                assert(i != n);
                assert(old_self.handle_at(i) == h2);
            }
        }
    }

    /// Copies out the payload bytes of record `i`.
    pub fn payload_copy(&self, i: usize) -> (r: Vec<u8>)
        requires
            self.wf(),
            i < self.count(),
        ensures
            r@ == self.payload_at(i as int),
    {
        proof {
            self.lemma_record_in_bounds(i as int);
        }
        let w = self.width;
        let base = i * w;
        let mut r: Vec<u8> = Vec::new();
        let mut j: usize = 0;
        while j < w
            invariant
                j <= w,
                w == self.width(),
                self.wf(),
                i < self.count(),
                base == i as int * self.width(),
                base + w <= self.bytes@.len(),
                self.bytes@.len() <= usize::MAX,
                r@ == self.bytes@.subrange(base as int, base + j),
            decreases w - j,
        {
            r.push(self.bytes[base + j]);
            proof {
                assert(r@ =~= self.bytes@.subrange(base as int, base + j + 1));
            }
            j = j + 1;
        }
        proof {
            assert(r@ =~= self.payload_at(i as int));
        }
        r
    }

    /// Two records whose byte ranges agree byte for byte carry equal payloads.
    proof fn lemma_payload_eq(a: ComponentBlob, b: ComponentBlob, ja: int, jb: int)
        requires
            a.width() == b.width(),
            a.width() >= 1,
            0 <= ja,
            (ja + 1) * a.width() <= a.byte_len(),
            0 <= jb,
            (jb + 1) * b.width() <= b.byte_len(),
            forall|l: int|
                0 <= l < a.width() ==> #[trigger] a.bytes@[ja * a.width() + l] == b.bytes@[jb
                    * b.width() + l],
        ensures
            a.payload_at(ja) == b.payload_at(jb),
    {
        assert(ja * a.width() + a.width() == (ja + 1) * a.width()) by (nonlinear_arith);
        assert(jb * b.width() + b.width() == (jb + 1) * b.width()) by (nonlinear_arith);
        assert(0 <= ja * a.width()) by (nonlinear_arith)
            requires
                0 <= ja,
                a.width() >= 1,
        ;
        assert(0 <= jb * b.width()) by (nonlinear_arith)
            requires
                0 <= jb,
                b.width() >= 1,
        ;
        assert forall|l: int| 0 <= l < a.width() implies a.payload_at(ja)[l] == b.payload_at(jb)[l] by {
            assert(a.payload_at(ja)[l] == a.bytes@[ja * a.width() + l]);
            assert(b.payload_at(jb)[l] == b.bytes@[jb * b.width() + l]);
        }
        assert(a.payload_at(ja) =~= b.payload_at(jb));
    }

    /// Overwrites the payload bytes of record `i` in place; the owning
    /// handles and every other record's bytes are untouched.
    pub fn write_payload(&mut self, i: usize, payload: &Vec<u8>)
        requires
            old(self).wf(),
            i < old(self).count(),
            payload@.len() == old(self).width(),
        ensures
            final(self).wf(),
            final(self).width() == old(self).width(),
            final(self).count() == old(self).count(),
            final(self).byte_len() == old(self).byte_len(),
            forall|j: int|
                0 <= j < old(self).count() ==> #[trigger] final(self).handle_at(j)
                    == old(self).handle_at(j),
            final(self).payload_at(i as int) == payload@,
            forall|j: int|
                0 <= j < old(self).count() && j != i ==> #[trigger] final(self).payload_at(j)
                    == old(self).payload_at(j),
            final(self).payload_of(old(self).handle_at(i as int)) == payload@,
            forall|h2: u32|
                #[trigger] final(self).has(h2) == old(self).has(h2) && (h2 != old(self).handle_at(
                    i as int,
                ) && old(self).has(h2) ==> final(self).payload_of(h2) == old(self).payload_of(h2)),
    {
        let ghost old_self = *old(self);
        let ghost old_bytes = self.bytes@;
        proof {
            self.lemma_record_in_bounds(i as int);
        }
        let w = self.width;
        let base = i * w;
        let mut j: usize = 0;
        while j < w
            invariant
                j <= w,
                w == old_self.width(),
                payload@.len() == w,
                base == i as int * w,
                base + w <= self.bytes@.len(),
                self.bytes@.len() <= usize::MAX,
                self.width == old_self.width,
                self.handles@ == old_self.handles@,
                self.bytes@.len() == old_bytes.len(),
                forall|m: int|
                    0 <= m < self.bytes@.len() ==> #[trigger] self.bytes@[m] == if base <= m < base
                        + j {
                        payload@[m - base]
                    } else {
                        old_bytes[m]
                    },
            decreases w - j,
        {
            let b = payload[j];
            self.bytes[base + j] = b;
            j = j + 1;
        }
        proof {
            assert(self.payload_at(i as int) =~= payload@);
            assert forall|j2: int| 0 <= j2 < old_self.count() && j2 != i implies #[trigger] self.payload_at(j2) == old_self.payload_at(j2) by {
                old_self.lemma_record_in_bounds(j2);
                assert forall|l: int|
                    0 <= l < self.width() implies #[trigger] self.bytes@[j2 * self.width() + l]
                    == old_self.bytes@[j2 * old_self.width() + l] by {
                    let m = j2 * self.width() + l;
                    assert(m < base || m >= base + w) by (nonlinear_arith)
                        requires
                            j2 != i,
                            0 <= l < w,
                            0 <= j2,
                            0 <= i,
                            base == i as int * w,
                            m == j2 * w + l,
                    ;
                }
                ComponentBlob::lemma_payload_eq(*self, old_self, j2, j2);
            }
            old_self.lemma_index_unique(i as int, old_self.handle_at(i as int));
            self.lemma_index_unique(i as int, old_self.handle_at(i as int));
            assert forall|h2: u32| self.has(h2) == old_self.has(h2) by {
                if self.has(h2) {
                    let a = self.index_of(h2);
                    assert(old_self.handle_at(a) == h2);
                }
                if old_self.has(h2) {
                    let a = old_self.index_of(h2);
                    assert(self.handle_at(a) == h2);
                }
            }
            assert forall|h2: u32|
                h2 != old_self.handle_at(i as int) && old_self.has(h2) implies self.payload_of(h2) == old_self.payload_of(h2) by {
                let idx = old_self.index_of(h2);
                old_self.lemma_index_unique(idx, h2);
                self.lemma_index_unique(idx, h2);
            }
        }
    }

    /// Removes record `i` by swapping it with the last record and truncating
    /// one record's width off the buffer. Which (handle, payload) pairs exist
    /// is preserved for every other handle; only positions may change.
    pub fn swap_remove_at(&mut self, i: usize)
        requires
            old(self).wf(),
            i < old(self).count(),
        ensures
            final(self).wf(),
            final(self).width() == old(self).width(),
            final(self).count() == old(self).count() - 1,
            final(self).byte_len() == old(self).byte_len() - old(self).width(),
            !final(self).has(old(self).handle_at(i as int)),
            forall|h2: u32|
                h2 != old(self).handle_at(i as int) ==> (#[trigger] final(self).has(h2) == old(
                    self,
                ).has(h2) && (old(self).has(h2) ==> final(self).payload_of(h2) == old(
                    self,
                ).payload_of(h2))),
    {
        let ghost old_self = *old(self);
        let ghost old_bytes = self.bytes@;
        let w = self.width;
        let n = self.handles.len();
        let last = n - 1;
        proof {
            old_self.lemma_record_in_bounds(i as int);
            old_self.lemma_record_in_bounds(last as int);
        }
        if i < last {
            let moved_h = self.handles[last];
            self.handles[i] = moved_h;
            let src = last * w;
            let dst = i * w;
            proof {
                assert(dst + w <= src) by (nonlinear_arith)
                    requires
                        dst == i as int * w,
                        src == last as int * w,
                        i < last,
                        w >= 1,
                        0 <= i,
                ;
            }
            let mut j: usize = 0;
            while j < w
                invariant
                    j <= w,
                    w == old_self.width(),
                    i < last,
                    last == old_self.count() - 1,
                    src == last as int * w,
                    dst == i as int * w,
                    src + w <= self.bytes@.len(),
                    self.bytes@.len() <= usize::MAX,
                    dst + w <= src,
                    self.width == old_self.width,
                    self.handles@ == old_self.handles@.update(
                        i as int,
                        old_self.handles@[last as int],
                    ),
                    self.bytes@.len() == old_bytes.len(),
                    forall|m: int|
                        0 <= m < self.bytes@.len() ==> #[trigger] self.bytes@[m] == if dst <= m
                            < dst + j {
                            old_bytes[src + (m - dst)]
                        } else {
                            old_bytes[m]
                        },
                decreases w - j,
            {
                let b = self.bytes[src + j];
                self.bytes[dst + j] = b;
                j = j + 1;
            }
        }
        self.handles.pop();
        let new_len = self.bytes.len() - w;
        self.bytes.truncate(new_len);
        proof {
            let nn = old_self.count() - 1;
            assert(nn * old_self.width() == old_self.count() * old_self.width() - old_self.width())
                by (nonlinear_arith)
                requires
                    nn == old_self.count() - 1,
            ;
            assert(self.bytes@.len() == nn * old_self.width());
            assert(self.handles@ =~= (if (i as int) < nn {
                old_self.handles@.update(i as int, old_self.handles@[nn]).take(nn)
            } else {
                old_self.handles@.take(nn)
            }));
            // Positional description of the surviving records.
            assert forall|j2: int| 0 <= j2 < nn && j2 != i implies self.handle_at(j2)
                == old_self.handle_at(j2) && #[trigger] self.payload_at(j2)
                == old_self.payload_at(j2) by {
                old_self.lemma_record_in_bounds(j2);
                self.lemma_record_in_bounds_raw(j2, nn);
                assert forall|l: int|
                    0 <= l < self.width() implies #[trigger] self.bytes@[j2 * self.width() + l]
                    == old_self.bytes@[j2 * old_self.width() + l] by {
                    let m = j2 * self.width() + l;
                    assert(m < i as int * w || m >= i as int * w + w) by (nonlinear_arith)
                        requires
                            j2 != i,
                            0 <= l < w,
                            0 <= j2,
                            0 <= i,
                            m == j2 * w + l,
                    ;
                    assert(m < nn * w) by (nonlinear_arith)
                        requires
                            0 <= j2 < nn,
                            0 <= l < w,
                            m == j2 * w + l,
                    ;
                }
                ComponentBlob::lemma_payload_eq(*self, old_self, j2, j2);
            }
            if (i as int) < nn {
                self.lemma_record_in_bounds_raw(i as int, nn);
                assert(self.handle_at(i as int) == old_self.handle_at(nn));
                assert forall|l: int|
                    0 <= l < self.width() implies #[trigger] self.bytes@[i as int * self.width()
                    + l] == old_self.bytes@[nn * old_self.width() + l] by {
                    let m = i as int * self.width() + l;
                    assert(m < nn * w) by (nonlinear_arith)
                        requires
                            0 <= i < nn,
                            0 <= l < w,
                            m == i as int * w + l,
                    ;
                }
                ComponentBlob::lemma_payload_eq(*self, old_self, i as int, nn);
                assert(self.payload_at(i as int) == old_self.payload_at(nn));
            }
            // Well-formedness: the survivors are pairwise distinct.
            assert forall|a: int, b: int| 0 <= a < b < nn implies self.handles@[a]
                != self.handles@[b] by {
                let ha = if a == i { old_self.handles@[nn] } else { old_self.handles@[a] };
                let hb = if b == i { old_self.handles@[nn] } else { old_self.handles@[b] };
                assert(self.handles@[a] == ha && self.handles@[b] == hb);
            }
            assert(self.wf());
            // The removed handle owns no surviving record.
            let hr = old_self.handle_at(i as int);
            assert forall|j2: int| 0 <= j2 < nn implies self.handle_at(j2) != hr by {
                if j2 == i {
                    assert(self.handle_at(j2) == old_self.handle_at(nn));
                } else {
                    assert(self.handle_at(j2) == old_self.handle_at(j2));
                }
            }
            // Every other handle keeps its payload.
            assert forall|h2: u32| h2 != hr && old_self.has(h2) implies self.has(h2)
                && self.payload_of(h2) == old_self.payload_of(h2) by {
                let idx = old_self.index_of(h2);
                old_self.lemma_index_unique(idx, h2);
                if idx == nn {
                    assert(i as int != nn);
                    assert(self.handle_at(i as int) == h2);
                    self.lemma_index_unique(i as int, h2);
                } else {
                    assert(idx != i);
                    self.lemma_index_unique(idx, h2);
                }
            }
            assert forall|h2: u32| h2 != hr && self.has(h2) implies old_self.has(h2) by {
                let idx = self.index_of(h2);
                if idx == i && (i as int) < nn {
                    assert(old_self.handle_at(nn) == h2);
                } else {
                    assert(old_self.handle_at(idx) == h2);
                }
            }
        }
    }

    /// Record `i`'s byte range lies inside a buffer of `cnt` records.
    proof fn lemma_record_in_bounds_raw(self, i: int, cnt: int)
        requires
            self.width() >= 1,
            self.byte_len() == cnt * self.width(),
            0 <= i < cnt,
        ensures
            0 <= i * self.width(),
            (i + 1) * self.width() <= self.byte_len(),
            i * self.width() + self.width() == (i + 1) * self.width(),
            self.byte_len() <= usize::MAX,
    {
        lemma_mul_inequality(0, i, self.width());
        lemma_mul_inequality(i + 1, cnt, self.width());
        assert(i * self.width() + self.width() == (i + 1) * self.width())
            by (nonlinear_arith);
        assert(self.bytes.len() == self.bytes@.len());
    }
}

} // verus!
