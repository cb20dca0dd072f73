//! Ranges of mapped files.
use vstd::prelude::*;
use crate::error::RockDuckError;

verus! {

/// Where a range of a mapped file starts and ends; it is cut at the end of the
/// file, but may not start behind it.
pub fn slice_at(mapped: usize, offset: u64, len: u64) -> (r: Result<(usize, usize), RockDuckError>)
    requires
        offset + len <= usize::MAX,
    ensures
        match r {
            Ok((start, end)) => {
                &&& start == offset
                &&& start <= end <= mapped
                &&& end == if offset + len < mapped {
                    offset + len
                } else {
                    mapped as int
                }
            },
            Err(e) => offset > mapped && e == RockDuckError::Internal,
        },
{
    let start: usize = offset as usize;
    let wanted: usize = start + len as usize;
    let end: usize = if wanted < mapped {
        wanted
    } else {
        mapped
    };
    if start > end {
        Err(RockDuckError::Internal)
    } else {
        Ok((start, end))
    }
}

/// A mapped file that is being written: how large it is, and how far it has been
/// written.
#[derive(Debug, Clone, Copy, PartialEq, Eq, Structural)]
pub struct MmapWriter {
    pub mapped: usize,
    pub data_len: usize,
}

impl MmapWriter {
    /// What has been written lies in the file.
    pub open spec fn wf(&self) -> bool {
        self.data_len <= self.mapped
    }

    /// A file of some size, not yet written.
    pub fn create(size: usize) -> (r: Self)
        ensures
            r.wf(),
            r == (MmapWriter { mapped: size, data_len: 0 }),
    {
        MmapWriter { mapped: size, data_len: 0 }
    }

    /// Where some bytes are written; it is an error when they do not fit.
    pub fn write_at(&mut self, offset: u64, len: usize) -> (r: Result<(usize, usize), RockDuckError>)
        requires
            old(self).wf(),
            offset + len <= usize::MAX,
        ensures
            final(self).wf(),
            final(self).mapped == old(self).mapped,
            match r {
                Ok((start, end)) => {
                    &&& start == offset
                    &&& end == offset + len <= old(self).mapped
                    &&& final(self).data_len == if end > old(self).data_len {
                        end
                    } else {
                        old(self).data_len
                    }
                },
                Err(e) => {
                    &&& offset + len > old(self).mapped
                    &&& e == RockDuckError::Internal
                    &&& final(self).data_len == old(self).data_len
                },
            },
    {
        let start: usize = offset as usize;
        let end: usize = start + len;
        if end > self.mapped {
            return Err(RockDuckError::Internal);
        }
        if end > self.data_len {
            self.data_len = end;
        }
        Ok((start, end))
    }

    /// Where a range to write in starts and ends.
    pub fn slice_at_mut(&self, offset: u64, len: u64) -> (r: Result<(usize, usize), RockDuckError>)
        requires
            offset + len <= usize::MAX,
        ensures
            match r {
                Ok((start, end)) => {
                    &&& start == offset
                    &&& start <= end <= self.mapped
                    &&& end == if offset + len < self.mapped {
                        offset + len
                    } else {
                        self.mapped as int
                    }
                },
                Err(e) => offset > self.mapped && e == RockDuckError::Internal,
            },
    {
        slice_at(self.mapped, offset, len)
    }

    /// How far the file has been written.
    pub fn data_len(&self) -> (r: usize)
        ensures
            r == self.data_len,
    {
        self.data_len
    }

    /// The size that the file is cut to at the end.
    pub fn finalize(self) -> (r: usize)
        requires
            self.wf(),
        ensures
            r == self.data_len,
            r <= self.mapped,
    {
        self.data_len
    }
}

} // verus!
