//! The memory image and the object regions cut from it.
//!
//! The image is a flat 64 KB array; a region is a run of consecutively
//! written bytes, and regions are what the object writers turn into records.

use vstd::prelude::*;
use crate::limits::IMAGE_SIZE;
use crate::text::slice_vec;

verus! {

/// A run of consecutive bytes that generated code.
#[derive(Debug)]
pub struct Region {
    pub start: u32,
    pub bytes: Vec<u8>,
}

pub open spec fn region_view(r: Region) -> (u32, Seq<u8>) {
    (r.start, r.bytes@)
}

pub open spec fn regions_view(v: Seq<Region>) -> Seq<(u32, Seq<u8>)> {
    v.map_values(|r: Region| region_view(r))
}

pub struct Image {
    pub mem: Vec<u8>,
    /// The lowest and highest image addresses written.
    pub lo: Option<u32>,
    pub hi: Option<u32>,
    pub regions: Vec<Region>,
    pub cur: Option<Region>,
    /// Set once the first out-of-range address of a run has been reported.
    pub reported_out_of_range: bool,
}

pub open spec fn min_opt(o: Option<u32>, w: u32) -> u32 {
    match o { Some(l) => if l < w { l } else { w }, None => w }
}

pub open spec fn max_opt(o: Option<u32>, w: u32) -> u32 {
    match o { Some(h) => if h > w { h } else { w }, None => w }
}

impl Image {
    pub open spec fn mem_view(&self) -> Seq<u8> {
        self.mem@
    }

    /// The region being extended, if any.
    pub open spec fn current(&self) -> Option<(u32, Seq<u8>)> {
        match self.cur { Some(r) => Some(region_view(r)), None => None }
    }

    pub open spec fn wf(&self) -> bool {
        &&& self.mem_view().len() == IMAGE_SIZE
        &&& (self.lo is Some <==> self.hi is Some)
        &&& (self.lo matches Some(l) ==> self.hi matches Some(h) && l <= h < IMAGE_SIZE)
    }

    /// What a read at `addr` yields.
    pub open spec fn byte_at(&self, addr: u32) -> u8 {
        if addr < IMAGE_SIZE { self.mem_view()[addr as int] } else { 0 }
    }

    /// An image of `fill` bytes, nothing written.
    pub fn new(fill: u8) -> (r: Image)
        ensures r.wf(), r.mem_view() == Seq::new(IMAGE_SIZE as nat, |i: int| fill),
            r.lo is None, r.hi is None, r.regions@.len() == 0, r.current() is None, !r.reported_out_of_range,
    {
        let mut mem: Vec<u8> = Vec::new();
        let mut i: usize = 0;
        while i < IMAGE_SIZE
            invariant i <= IMAGE_SIZE, mem@ == Seq::new(i as nat, |k: int| fill),
            decreases IMAGE_SIZE - i,
        {
            mem.push(fill);
            assert(mem@ =~= Seq::new((i + 1) as nat, |k: int| fill));
            i += 1;
        }
        Image { mem, lo: None, hi: None, regions: Vec::new(), cur: None, reported_out_of_range: false }
    }

    /// Write one byte. An address past the image is wrapped to 16 bits and the
    /// byte still written; the result says whether it was in range. The
    /// region keeps the unwrapped address, so a run that crosses 0xFFFF stays
    /// one region.
    pub fn write(&mut self, addr: u32, byte: u8) -> (r: bool)
        requires old(self).wf(),
        ensures
            final(self).wf(),
            r == (addr < IMAGE_SIZE),
            final(self).mem_view() == old(self).mem_view().update((addr % 0x10000) as int, byte),
            final(self).byte_at((addr % 0x10000) as u32) == byte,
            forall|a: u32| a < IMAGE_SIZE && a != addr % 0x10000 ==> #[trigger] final(self).byte_at(a) == old(self).byte_at(a),
            final(self).lo == Some(min_opt(old(self).lo, (addr % 0x10000) as u32)),
            final(self).hi == Some(max_opt(old(self).hi, (addr % 0x10000) as u32)),
            final(self).reported_out_of_range == old(self).reported_out_of_range,
            match old(self).current() {
                Some((s, b)) => if s + b.len() == addr {
                    final(self).current() == Some((s, b.push(byte)))
                    && regions_view(final(self).regions@) == regions_view(old(self).regions@)
                } else {
                    final(self).current() == Some((addr, seq![byte]))
                    && regions_view(final(self).regions@) == if b.len() > 0 { regions_view(old(self).regions@).push((s, b)) } else { regions_view(old(self).regions@) }
                },
                None => final(self).current() == Some((addr, seq![byte]))
                    && regions_view(final(self).regions@) == regions_view(old(self).regions@),
            },
    {
        let in_range = addr < 0x10000;
        let idx = (addr % 0x10000) as usize;
        self.mem.set(idx, byte);
        let w = idx as u32;
        self.lo = Some(match self.lo { Some(l) => if l < w { l } else { w }, None => w });
        self.hi = Some(match self.hi { Some(h) => if h > w { h } else { w }, None => w });
        let extend = match &self.cur {
            Some(r) => addr >= r.start && (addr - r.start) as usize == r.bytes.len(),
            None => false,
        };
        if extend {
            let mut r = self.cur.take().unwrap();
            r.bytes.push(byte);
            self.cur = Some(r);
        } else {
            self.flush();
            let mut b: Vec<u8> = Vec::new();
            b.push(byte);
            assert(b@ =~= seq![byte]);
            self.cur = Some(Region { start: addr, bytes: b });
        }
        in_range
    }

    /// A read outside the image returns 0.
    pub fn read(&self, addr: u32) -> (r: u8)
        requires self.wf(),
        returns self.byte_at(addr),
    {
        if addr < 0x10000 { self.mem[addr as usize] } else { 0 }
    }

    /// What closing the current region leaves: no open region, the bytes
    /// and bounds as they were, and the open region kept if it holds any bytes.
    pub open spec fn flush_done(&self, after: Image) -> bool {
        &&& after.current() is None
        &&& after.mem_view() == self.mem_view()
        &&& after.lo == self.lo
        &&& after.hi == self.hi
        &&& after.reported_out_of_range == self.reported_out_of_range
        &&& regions_view(after.regions@) == match self.current() {
            Some((s, b)) => if b.len() > 0 { regions_view(self.regions@).push((s, b)) } else { regions_view(self.regions@) },
            None => regions_view(self.regions@),
        }
    }

    /// Close the current region, keeping it if it holds any bytes.
    pub fn flush(&mut self)
        ensures
            old(self).flush_done(*final(self)),
            final(self).current() is None,
            final(self).mem_view() == old(self).mem_view(),
            final(self).lo == old(self).lo,
            final(self).hi == old(self).hi,
            final(self).reported_out_of_range == old(self).reported_out_of_range,
            regions_view(final(self).regions@) == match old(self).current() {
                Some((s, b)) => if b.len() > 0 { regions_view(old(self).regions@).push((s, b)) } else { regions_view(old(self).regions@) },
                None => regions_view(old(self).regions@),
            },
    {
        let ghost before = self.regions@;
        match self.cur.take() {
            Some(r) => {
                if r.bytes.len() > 0 {
                    self.regions.push(r);
                    assert(regions_view(self.regions@) =~= regions_view(before).push(region_view(r)));
                }
            }
            None => {}
        }
    }

    /// The whole span from the lowest to the highest address written, as one
    /// run, gaps carrying whatever the image holds.
    pub fn block(&self) -> (r: Option<Region>)
        requires self.wf(),
        ensures
            match (self.lo, self.hi) {
                (Some(l), Some(h)) => r matches Some(reg) && reg.start == l
                    && reg.bytes@ == self.mem_view().subrange(l as int, h + 1),
                _ => r is None,
            },
    {
        match (self.lo, self.hi) {
            (Some(l), Some(h)) => Some(Region { start: l, bytes: slice_vec(&self.mem, l as usize, h as usize + 1) }),
            _ => None,
        }
    }
}

} // verus!
