use vstd::prelude::*;

verus! {

/// Preallocation ceiling: a buffer doubles while doubling stays under it,
/// and grows by this much beyond it.
pub const MAX_PREALLOC: usize = 1048576;

/// A byte string: storage that is not necessarily UTF-8, with a length known in
/// constant time and cheap appends.
pub trait SmartString {
    /// The bytes the string holds.
    spec fn bytes(&self) -> Seq<u8>;

    /// Internal consistency of the representation.
    spec fn inv(&self) -> bool;

    /// Number of bytes held.
    fn len(&self) -> (r: usize)
        requires
            self.inv(),
        ensures
            r == self.bytes().len(),
    ;

    /// Adds `data` at the end.
    fn append(&mut self, data: &[u8])
        requires
            old(self).inv(),
            old(self).bytes().len() + data@.len() + MAX_PREALLOC <= usize::MAX,
        ensures
            final(self).inv(),
            final(self).bytes() == old(self).bytes() + data@,
    ;

    /// The bytes held, borrowed.
    fn val(&self) -> (r: &[u8])
        requires
            self.inv(),
        ensures
            r@ == self.bytes(),
    ;
}

/// Simple dynamic string: occupied bytes followed by `free` spare bytes.
/// Equality and hashing concern the occupied bytes alone.
#[derive(Clone)]
pub struct SDS {
    cur_len: usize,
    free: usize,
    data: Vec<u8>,
}

impl View for SDS {
    type V = Seq<u8>;

    closed spec fn view(&self) -> Seq<u8> {
        self.data@.subrange(0, self.occupied_len())
    }
}

/// Size of the buffer that an append reallocates to when `needed` bytes must fit.
pub open spec fn grown_capacity(needed: int) -> int {
    if 2 * needed <= MAX_PREALLOC {
        2 * needed
    } else {
        needed + MAX_PREALLOC
    }
}

impl SDS {
    /// Number of occupied bytes that the buffer actually holds.
    closed spec fn occupied_len(&self) -> int {
        if self.cur_len <= self.data@.len() {
            self.cur_len as int
        } else {
            self.data@.len() as int
        }
    }

    /// The occupied bytes, whatever the state of the counters.
    fn occupied(&self) -> (r: &[u8])
        ensures
            r@ == self@,
    {
        let n = if self.cur_len <= self.data.len() {
            self.cur_len
        } else {
            self.data.len()
        };
        vstd::slice::slice_subrange(self.data.as_slice(), 0, n)
    }

    /// The buffer holds exactly the occupied bytes and the free bytes.
    pub closed spec fn wf(&self) -> bool {
        self.data@.len() == self.cur_len + self.free
    }

    /// Size of the whole buffer, occupied and free.
    pub closed spec fn spec_capacity(&self) -> nat {
        self.data@.len()
    }

    /// Spare bytes after the occupied ones.
    pub closed spec fn spec_free(&self) -> nat {
        self.free as nat
    }

    /// The buffer is the occupied bytes and the free bytes.
    pub proof fn lemma_capacity(&self)
        requires
            self.wf(),
        ensures
            self.spec_capacity() == self@.len() + self.spec_free(),
    {
    }

    /// An empty string with no buffer.
    pub fn empty() -> (r: Self)
        ensures
            r.wf(),
            r@ == Seq::<u8>::empty(),
            r.spec_capacity() == 0,
            r.spec_free() == 0,
    {
        let r = SDS { cur_len: 0, free: 0, data: Vec::new() };
        assert(r@ =~= Seq::<u8>::empty());
        r
    }

    /// A string holding a copy of `init`, sized by the growth rule.
    pub fn new(init: &[u8]) -> (r: Self)
        requires
            init@.len() + MAX_PREALLOC <= usize::MAX,
        ensures
            r.wf(),
            r@ == init@,
            init@.len() == 0 ==> r.spec_capacity() == 0,
            init@.len() > 0 ==> r.spec_capacity() == grown_capacity(init@.len() as int),
            r.spec_capacity() == r@.len() + r.spec_free(),
    {
        let mut inst = Self::empty();
        inst.append_bytes(init);
        assert(inst@ =~= init@);
        inst
    }

    /// Drops the contents and the buffer.
    pub fn clear(&mut self)
        ensures
            final(self).wf(),
            final(self)@ == Seq::<u8>::empty(),
            final(self).spec_capacity() == 0,
            final(self).spec_free() == 0,
    {
        *self = Self::empty();
    }

    /// Number of occupied bytes.
    pub fn len(&self) -> (r: usize)
        requires
            self.wf(),
        ensures
            r == self@.len(),
    {
        self.cur_len
    }

    /// Size of the buffer, occupied and free.
    pub fn capacity(&self) -> (r: usize)
        requires
            self.wf(),
        ensures
            r == self.spec_capacity(),
    {
        self.data.len()
    }

    /// Spare bytes after the occupied ones.
    pub fn free(&self) -> (r: usize)
        ensures
            r == self.spec_free(),
    {
        self.free
    }

    /// Makes room for `required_len` more bytes: nothing happens when the free
    /// bytes suffice, otherwise the buffer is reallocated by the growth rule.
    fn expand(&mut self, required_len: usize)
        requires
            old(self).wf(),
            old(self)@.len() + required_len + MAX_PREALLOC <= usize::MAX,
        ensures
            final(self).wf(),
            final(self)@ == old(self)@,
            final(self).spec_free() >= required_len,
            required_len <= old(self).spec_free() ==> final(self).spec_capacity() == old(self).spec_capacity(),
            required_len > old(self).spec_free() ==> final(self).spec_capacity() == grown_capacity(
                (old(self)@.len() + required_len) as int,
            ),
    {
        if required_len <= self.free {
            return;
        }
        let mut new_size: usize = required_len + self.cur_len;
        if new_size <= MAX_PREALLOC / 2 {
            new_size = new_size * 2;
        } else {
            new_size = new_size + MAX_PREALLOC;
        }
        let mut new_data: Vec<u8> = Vec::with_capacity(new_size);
        let mut i: usize = 0;
        while i < self.cur_len
            invariant
                self.wf(),
                i <= self.cur_len,
                new_data@ == self.data@.subrange(0, i as int),
            decreases self.cur_len - i,
        {
            new_data.push(self.data[i]);
            i = i + 1;
            assert(new_data@ =~= self.data@.subrange(0, i as int));
        }
        while i < new_size
            invariant
                self.cur_len <= i <= new_size,
                new_data@.len() == i,
                new_data@.subrange(0, self.cur_len as int) == self.data@.subrange(0, self.cur_len as int),
            decreases new_size - i,
        {
            new_data.push(0u8);
            i = i + 1;
            assert(new_data@.subrange(0, self.cur_len as int) =~= self.data@.subrange(0, self.cur_len as int));
        }
        self.free = new_size - self.cur_len;
        self.data = new_data;
    }

    /// Adds `data` at the end, growing the buffer by the growth rule when the free
    /// bytes do not suffice.
    pub fn append_bytes(&mut self, data: &[u8])
        requires
            old(self).wf(),
            old(self)@.len() + data@.len() + MAX_PREALLOC <= usize::MAX,
        ensures
            final(self).wf(),
            final(self)@ == old(self)@ + data@,
            final(self).spec_capacity() == final(self)@.len() + final(self).spec_free(),
            data@.len() <= old(self).spec_free() ==> final(self).spec_capacity() == old(self).spec_capacity(),
            data@.len() > old(self).spec_free() ==> final(self).spec_capacity() == grown_capacity(
                (old(self)@.len() + data@.len()) as int,
            ),
    {
        self.expand(data.len());
        let ghost before = self.data@;
        let start = self.cur_len;
        let mut i: usize = 0;
        while i < data.len()
            invariant
                self.wf(),
                self.cur_len == start,
                start + data@.len() <= usize::MAX,
                self.free >= data@.len(),
                self.data@.len() == before.len(),
                i <= data@.len(),
                self.data@.subrange(0, start as int) == before.subrange(0, start as int),
                self.data@.subrange(start as int, start + i) == data@.subrange(0, i as int),
            decreases data@.len() - i,
        {
            self.data.set(start + i, data[i]);
            i = i + 1;
            assert(self.data@.subrange(0, start as int) =~= before.subrange(0, start as int));
            assert(self.data@.subrange(start as int, start + i) =~= data@.subrange(0, i as int));
        }
        self.cur_len = start + data.len();
        self.free = self.free - data.len();
        assert(self@ =~= old(self)@ + data@) by {
            assert(self@ =~= self.data@.subrange(0, start as int) + self.data@.subrange(
                start as int,
                start + data@.len(),
            ));
            assert(data@.subrange(0, data@.len() as int) =~= data@);
        }
    }

    /// The occupied bytes.
    pub fn value(&self) -> (r: &[u8])
        requires
            self.wf(),
        ensures
            r@ == self@,
    {
        let s = self.data.as_slice();
        vstd::slice::slice_subrange(s, 0, self.cur_len)
    }
}

impl SmartString for SDS {
    open spec fn bytes(&self) -> Seq<u8> {
        self@
    }

    open spec fn inv(&self) -> bool {
        self.wf()
    }

    fn len(&self) -> (r: usize) {
        SDS::len(self)
    }

    fn append(&mut self, data: &[u8]) {
        self.append_bytes(data)
    }

    fn val(&self) -> (r: &[u8]) {
        self.value()
    }
}

/// Whether two byte strings are equal.
pub fn bytes_eq(a: &[u8], b: &[u8]) -> (r: bool)
    ensures
        r == (a@ == b@),
{
    if a.len() != b.len() {
        return false;
    }
    let mut i: usize = 0;
    while i < a.len()
        invariant
            a@.len() == b@.len(),
            i <= a@.len(),
            a@.subrange(0, i as int) == b@.subrange(0, i as int),
        decreases a@.len() - i,
    {
        if a[i] != b[i] {
            assert(a@[i as int] != b@[i as int]);
            return false;
        }
        i = i + 1;
        assert(a@.subrange(0, i as int) =~= a@.subrange(0, i - 1).push(a@[i - 1]));
        assert(b@.subrange(0, i as int) =~= b@.subrange(0, i - 1).push(b@[i - 1]));
    }
    assert(a@ =~= a@.subrange(0, i as int));
    assert(b@ =~= b@.subrange(0, i as int));
    true
}

impl PartialEq for SDS {
    fn eq(&self, other: &SDS) -> (r: bool) {
        bytes_eq(self.occupied(), other.occupied())
    }
}

impl vstd::std_specs::cmp::PartialEqSpecImpl for SDS {
    open spec fn obeys_eq_spec() -> bool {
        true
    }

    open spec fn eq_spec(&self, other: &SDS) -> bool {
        self@ == other@
    }
}

} // verus!
