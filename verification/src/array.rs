//! Fixed-size arrays allocated on the heap together with their length.
use vstd::prelude::*;
use vstd::layout::size_of;

verus! {

/// Bytes of the array header: the 32-bit length and the initialised flag,
/// padded to the array's 8-byte alignment.
pub const ARRAY_HEADER_SIZE: usize = 8;

/// A fixed-size array of `T`. Its length is stored in 32 bits.
pub struct Array<T> {
    values: Vec<T>,
}

impl<T> View for Array<T> {
    type V = Seq<T>;

    /// The elements.
    closed spec fn view(&self) -> Seq<T> {
        self.values@
    }
}

/// Bytes an array of `len` elements of `T` takes on the heap.
pub open spec fn array_allocation_size<T>(len: nat) -> nat {
    len * size_of::<T>() + ARRAY_HEADER_SIZE as nat
}

impl<T> Array<T> {
    /// An array of `len` default values.
    pub fn new_with_default(len: usize) -> (a: Self) where T: Default
        requires
            len <= u32::MAX,
        ensures
            a@.len() == len,
    {
        let mut values: Vec<T> = Vec::new();
        let mut i: usize = 0;
        while i < len
            invariant
                i <= len,
                values@.len() == i,
            decreases len - i,
        {
            values.push(T::default());
            i = i + 1;
        }
        Array { values }
    }

    /// An array holding copies of the elements of `slice`.
    pub fn from_slice<const N: usize>(slice: [T; N]) -> (a: Self) where T: Copy
        requires
            N <= u32::MAX,
        ensures
            a@ == slice@,
    {
        let mut values: Vec<T> = Vec::new();
        let mut i: usize = 0;
        while i < N
            invariant
                i <= N,
                slice@.len() == N,
                values@ == slice@.take(i as int),
            decreases N - i,
        {
            values.push(slice[i]);
            proof {
                assert(slice@.take(i as int + 1) =~= slice@.take(i as int).push(slice@[i as int]));
            }
            i = i + 1;
        }
        proof {
            assert(slice@.take(N as int) =~= slice@);
        }
        Array { values }
    }

    /// Number of elements.
    pub fn len(&self) -> (r: usize)
        ensures
            r == self@.len(),
    {
        self.values.len()
    }

    /// Element `index`.
    pub fn at(&self, index: usize) -> (r: &T)
        requires
            index < self@.len(),
        ensures
            *r == self@[index as int],
    {
        &self.values[index]
    }

    /// Mutable access to element `index`.
    pub fn at_mut(&mut self, index: usize) -> (r: &mut T)
        requires
            index < old(self)@.len(),
        ensures
            *r == old(self)@[index as int],
            final(self)@ == old(self)@.update(index as int, *final(r)),
    {
        &mut self.values[index]
    }

    /// The elements as a slice.
    pub fn as_slice(&self) -> (r: &[T])
        ensures
            r@ == self@,
    {
        self.values.as_slice()
    }

    /// Bytes the array takes on the heap: its elements and its header.
    pub fn allocation_size(&self) -> (r: usize)
        requires
            array_allocation_size::<T>(self@.len()) <= usize::MAX,
        ensures
            r == array_allocation_size::<T>(self@.len()),
    {
        let n = self.values.len();
        let es = core::mem::size_of::<T>();
        proof {
            assert(n * es + ARRAY_HEADER_SIZE <= usize::MAX);
            assert(n * es <= usize::MAX) by (nonlinear_arith)
                requires n * es + 8 <= usize::MAX;
        }
        n * es + ARRAY_HEADER_SIZE
    }
}

/// Bytes of the fixed array header: the length, padded to the 16-byte
/// alignment.
pub const FIXED_ARRAY_HEADER_SIZE: usize = 16;

/// A fixed-size array whose elements are copied in when it is made.
pub struct FixedArray<T> {
    values: Vec<T>,
}

impl<T> View for FixedArray<T> {
    type V = Seq<T>;

    /// The elements.
    closed spec fn view(&self) -> Seq<T> {
        self.values@
    }
}

impl<T: Copy> FixedArray<T> {
    /// An array holding copies of the elements of `init`.
    pub fn new(init: &[T]) -> (a: Self)
        ensures
            a@ == init@,
    {
        let mut values: Vec<T> = Vec::new();
        let mut i: usize = 0;
        while i < init.len()
            invariant
                i <= init@.len(),
                values@ == init@.take(i as int),
            decreases init@.len() - i,
        {
            values.push(init[i]);
            proof {
                assert(init@.take(i as int + 1) =~= init@.take(i as int).push(init@[i as int]));
            }
            i = i + 1;
        }
        proof {
            assert(init@.take(init@.len() as int) =~= init@);
        }
        FixedArray { values }
    }

    /// Number of elements.
    pub fn len(&self) -> (r: usize)
        ensures
            r == self@.len(),
    {
        self.values.len()
    }

    /// The elements as a slice.
    pub fn as_ref(&self) -> (r: &[T])
        ensures
            r@ == self@,
    {
        self.values.as_slice()
    }

    /// Bytes the array takes on the heap: its elements and its header.
    pub fn allocation_size(&self) -> (r: usize)
        requires
            self@.len() * size_of::<T>() + FIXED_ARRAY_HEADER_SIZE <= usize::MAX,
        ensures
            r == self@.len() * size_of::<T>() + FIXED_ARRAY_HEADER_SIZE,
    {
        let n = self.values.len();
        let es = core::mem::size_of::<T>();
        proof {
            assert(n * es <= usize::MAX) by (nonlinear_arith)
                requires n * es + 16 <= usize::MAX;
        }
        n * es + FIXED_ARRAY_HEADER_SIZE
    }
}

} // verus!
