use vstd::prelude::*;

verus! {

/// Estimation of the number of bytes a value occupies.
///
/// The cache never inspects keys or values itself: it takes the number
/// reported here as authoritative. An implementation must be stable: while a
/// value is unchanged, `mem_size` keeps returning the same number, which is
/// what `spec_mem_size` names.
pub trait MemSize {
    spec fn spec_mem_size(&self) -> usize;

    fn mem_size(&self) -> (r: usize)
        ensures
            r == self.spec_mem_size(),
    ;
}

impl MemSize for u8 {
    open spec fn spec_mem_size(&self) -> usize {
        1
    }

    fn mem_size(&self) -> (r: usize) {
        1
    }
}

impl MemSize for u16 {
    open spec fn spec_mem_size(&self) -> usize {
        2
    }

    fn mem_size(&self) -> (r: usize) {
        2
    }
}

impl MemSize for u32 {
    open spec fn spec_mem_size(&self) -> usize {
        4
    }

    fn mem_size(&self) -> (r: usize) {
        4
    }
}

impl MemSize for u64 {
    open spec fn spec_mem_size(&self) -> usize {
        8
    }

    fn mem_size(&self) -> (r: usize) {
        8
    }
}

impl MemSize for i32 {
    open spec fn spec_mem_size(&self) -> usize {
        4
    }

    fn mem_size(&self) -> (r: usize) {
        4
    }
}

impl MemSize for i64 {
    open spec fn spec_mem_size(&self) -> usize {
        8
    }

    fn mem_size(&self) -> (r: usize) {
        8
    }
}

impl MemSize for usize {
    open spec fn spec_mem_size(&self) -> usize {
        8
    }

    fn mem_size(&self) -> (r: usize) {
        8
    }
}

impl MemSize for bool {
    open spec fn spec_mem_size(&self) -> usize {
        1
    }

    fn mem_size(&self) -> (r: usize) {
        1
    }
}

impl MemSize for char {
    open spec fn spec_mem_size(&self) -> usize {
        4
    }

    fn mem_size(&self) -> (r: usize) {
        4
    }
}

/// A string is counted by the bytes of its UTF-8 encoding.
impl MemSize for String {
    open spec fn spec_mem_size(&self) -> usize {
        vstd::utf8::encode_utf8(self@).len() as usize
    }

    fn mem_size(&self) -> (r: usize) {
        self.as_str().len()
    }
}

} // verus!
