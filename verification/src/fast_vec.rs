//! A growable vector that keeps track of its own capacity and doubles it
//! when a push finds it full.
use vstd::prelude::*;
use vstd::string::StringExecFns;

verus! {

/// A growable vector of `T`.
///
/// It owns a buffer of `capacity` slots; the first `len` hold the elements,
/// the rest are empty. Its contents are its view, a sequence of `T`. A push
/// that finds the buffer full moves the elements into one twice as large
/// (one slot if the buffer had none); `clear` releases the buffer.
pub struct FastVec<T> {
    buf: Vec<Option<T>>,
    len: usize,
}

impl<T> View for FastVec<T> {
    type V = Seq<T>;

    closed spec fn view(&self) -> Seq<T> {
        Seq::new(self.len as nat, |i: int| self.buf@[i]->0)
    }
}

/// A buffer of `n` empty slots.
fn empty_slots<T>(n: usize) -> (r: Vec<Option<T>>)
    ensures
        r@.len() == n,
        forall|i: int| 0 <= i < n ==> #[trigger] r@[i] is None,
{
    let mut r: Vec<Option<T>> = Vec::new();
    let mut k: usize = 0;
    while k < n
        invariant
            k <= n,
            r@.len() == k,
            forall|i: int| 0 <= i < k ==> #[trigger] r@[i] is None,
        decreases n - k,
    {
        r.push(None);
        k = k + 1;
    }
    r
}

impl<T> FastVec<T> {
    /// The first `len` slots are filled and the others empty.
    #[verifier::type_invariant]
    spec fn inv(self) -> bool {
        &&& self.len <= self.buf@.len()
        &&& forall|i: int| 0 <= i < self.buf@.len() ==> (#[trigger] self.buf@[i] is Some <==> i < self.len)
    }

    /// The capacity, in elements: the number of slots in the buffer.
    pub closed spec fn cap_spec(&self) -> nat {
        self.buf@.len()
    }

    /// An empty vector with room for one element.
    pub fn new() -> (r: FastVec<T>)
        ensures
            r@ == Seq::<T>::empty(),
            r.cap_spec() == 1,
    {
        return FastVec::with_capacity(1);
    }

    /// An empty vector with room for `capacity` elements.
    pub fn with_capacity(capacity: usize) -> (r: FastVec<T>)
        ensures
            r@ == Seq::<T>::empty(),
            r.cap_spec() == capacity,
    {
        let r = FastVec { buf: empty_slots(capacity), len: 0 };
        assert(r@ =~= Seq::<T>::empty());
        r
    }

    /// The number of elements.
    pub fn len(&self) -> (r: usize)
        ensures
            r == self@.len(),
    {
        self.len
    }

    /// The capacity; never less than the length.
    pub fn capacity(&self) -> (r: usize)
        ensures
            r == self.cap_spec(),
            self@.len() <= r,
    {
        proof {
            use_type_invariant(self);
        }
        self.buf.len()
    }

    /// The elements, in order, as a `Vec`.
    pub fn into_vec(self) -> (r: Vec<T>)
        ensures
            r@ == self@,
    {
        proof {
            use_type_invariant(&self);
        }
        let ghost view = self@;
        let FastVec { buf, len } = self;
        let mut buf = buf;
        let mut v: Vec<T> = Vec::new();
        for i in 0..len
            invariant
                len <= buf@.len(),
                view.len() == len,
                v@.len() == i,
                forall|k: int| 0 <= k < i ==> #[trigger] v@[k] == view[k],
                forall|k: int| i <= k < len ==> #[trigger] buf@[k] == Some(view[k]),
        {
            let mut slot: Option<T> = None;
            buf.set_and_swap(i, &mut slot);
            v.push(slot.unwrap());
        }
        assert(v@ =~= view);
        v
    }

    /// A vector holding the elements of `vec`, with capacity for exactly
    /// those.
    pub fn from_vec(vec: Vec<T>) -> (r: FastVec<T>)
        ensures
            r@ == vec@,
            r.cap_spec() == vec@.len(),
    {
        let ghost orig = vec@;
        let n = vec.len();
        let mut buf: Vec<Option<T>> = empty_slots(n);
        let mut rest = vec;
        while rest.len() > 0
            invariant
                n == orig.len(),
                buf@.len() == n,
                rest@.len() <= n,
                rest@ == orig.take(rest@.len() as int),
                forall|k: int| 0 <= k < rest@.len() ==> #[trigger] buf@[k] is None,
                forall|k: int| rest@.len() <= k < n ==> #[trigger] buf@[k] == Some(orig[k]),
            decreases rest@.len(),
        {
            let ghost before = rest@;
            let x = rest.pop().unwrap();
            let k = rest.len();
            assert(x == orig[k as int]);
            assert(rest@ =~= orig.take(k as int)) by {
                assert(before.drop_last() =~= orig.take(k as int));
            }
            buf.set(k, Some(x));
        }
        let r = FastVec { buf, len: n };
        assert(r@ =~= orig);
        r
    }

    /// The element at index `i`, which must be below the length.
    pub fn get(&self, i: usize) -> (r: &T)
        requires
            i < self@.len(),
        ensures
            *r == self@[i as int],
    {
        proof {
            use_type_invariant(self);
        }
        self.buf[i].as_ref().unwrap()
    }

    /// Appends `t`. A full vector first moves its elements into a buffer of
    /// twice the capacity, or of one slot if it had none.
    pub fn push(&mut self, t: T)
        requires
            old(self)@.len() < old(self).cap_spec() || old(self).cap_spec() * 2 <= usize::MAX,
        ensures
            final(self)@ == old(self)@.push(t),
            final(self).cap_spec() == if old(self)@.len() < old(self).cap_spec() {
                old(self).cap_spec()
            } else if old(self).cap_spec() == 0 {
                1
            } else {
                old(self).cap_spec() * 2
            },
    {
        let mut this = FastVec::with_capacity(0);
        std::mem::swap(self, &mut this);
        proof {
            use_type_invariant(&this);
        }
        let ghost view = this@;
        let FastVec { buf, len } = this;
        let mut buf = buf;
        if len == buf.len() {
            let new_capacity = if len == 0 {
                1
            } else {
                len * 2
            };
            let mut grown: Vec<Option<T>> = empty_slots(new_capacity);
            for i in 0..len
                invariant
                    len == buf@.len(),
                    len < new_capacity,
                    grown@.len() == new_capacity,
                    view.len() == len,
                    forall|k: int| 0 <= k < i ==> #[trigger] grown@[k] == Some(view[k]),
                    forall|k: int| i <= k < new_capacity ==> #[trigger] grown@[k] is None,
                    forall|k: int| i <= k < len ==> #[trigger] buf@[k] == Some(view[k]),
            {
                let mut slot: Option<T> = None;
                buf.set_and_swap(i, &mut slot);
                grown.set(i, slot);
            }
            buf = grown;
        }
        assert(forall|k: int| 0 <= k < len ==> #[trigger] buf@[k] == Some(view[k]));
        buf.set(len, Some(t));
        let r = FastVec { buf, len: len + 1 };
        assert(r@ =~= view.push(t));
        *self = r;
    }

    /// Removes and returns the element at index `i`, which must be below the
    /// length; the elements after it move one place to the front. The
    /// capacity is unchanged.
    pub fn remove(&mut self, i: usize) -> (r: T)
        requires
            i < old(self)@.len(),
        ensures
            r == old(self)@[i as int],
            final(self)@ == old(self)@.remove(i as int),
            final(self).cap_spec() == old(self).cap_spec(),
    {
        let mut this = FastVec::with_capacity(0);
        std::mem::swap(self, &mut this);
        proof {
            use_type_invariant(&this);
        }
        let ghost view = this@;
        let FastVec { buf, len } = this;
        let mut buf = buf;
        let ghost cap = buf@.len();
        let mut removed: Option<T> = None;
        buf.set_and_swap(i, &mut removed);
        let mut j = i + 1;
        while j < len
            invariant
                i < j <= len,
                len <= cap,
                buf@.len() == cap,
                view.len() == len,
                forall|k: int| 0 <= k < i ==> #[trigger] buf@[k] == Some(view[k]),
                forall|k: int| i <= k < j - 1 ==> #[trigger] buf@[k] == Some(view[k + 1]),
                buf@[j - 1] is None,
                forall|k: int| j <= k < len ==> #[trigger] buf@[k] == Some(view[k]),
                forall|k: int| len <= k < cap ==> #[trigger] buf@[k] is None,
            decreases len - j,
        {
            let mut slot: Option<T> = None;
            buf.set_and_swap(j, &mut slot);
            buf.set(j - 1, slot);
            j = j + 1;
        }
        let r = FastVec { buf, len: len - 1 };
        assert(r@ =~= view.remove(i as int));
        *self = r;
        removed.unwrap()
    }

    /// Drops every element and releases the buffer: the vector becomes
    /// empty with capacity zero.
    pub fn clear(&mut self)
        ensures
            final(self)@ == Seq::<T>::empty(),
            final(self).cap_spec() == 0,
    {
        let r = FastVec { buf: Vec::new(), len: 0 };
        assert(r@ =~= Seq::<T>::empty());
        *self = r;
    }
}

/// Law: removing the last element right after pushing `t` gives back `t`
/// and the contents from before the push.
pub proof fn lemma_remove_undoes_push<T>(s: Seq<T>, t: T)
    ensures
        s.push(t)[s.len() as int] == t,
        s.push(t).remove(s.len() as int) == s,
{
    assert(s.push(t).remove(s.len() as int) =~= s);
}

/// The elements joined by `sep`: `list[0] + sep + list[1] + ... + list[n-1]`.
pub open spec fn seq_join(list: Seq<Seq<char>>, sep: Seq<char>) -> Seq<char>
    decreases list.len(),
{
    if list.len() == 0 {
        Seq::empty()
    } else if list.len() == 1 {
        list[0]
    } else {
        seq_join(list.drop_last(), sep) + sep + list.last()
    }
}

/// How a vector prints: `FastVec[a, b, c]`, given how each element prints.
pub open spec fn display_of(items: Seq<Seq<char>>) -> Seq<char> {
    "FastVec["@ + seq_join(items, ", "@) + "]"@
}

/// Prints a vector whose elements print as `items`, in order:
/// `FastVec[` followed by the items separated by `, ` and then `]`.
pub fn display_with(items: &Vec<String>) -> (r: String)
    ensures
        r@ == display_of(items@.map_values(|s: String| s@)),
{
    let ghost list = items@.map_values(|s: String| s@);
    let mut res = String::from_str("FastVec[");
    let ghost prefix = res@;
    let n = items.len();
    for i in 0..n
        invariant
            n == items@.len(),
            list == items@.map_values(|s: String| s@),
            prefix == "FastVec["@,
            res@ == prefix + seq_join(list.take(i as int), ", "@),
    {
        if i != 0 {
            res.append(", ");
            res.append(items[i].as_str());
            assert(list.take((i + 1) as int).drop_last() =~= list.take(i as int));
        } else {
            res.append(items[i].as_str());
            assert(list.take(1) =~= seq![list[0]]);
        }
        assert(res@ =~= prefix + seq_join(list.take((i + 1) as int), ", "@));
    }
    assert(list.take(n as int) =~= list);
    res.append("]");
    res
}

} // verus!
