//! The metadata of one theme directory and how far it is from a requested size.

use vstd::prelude::*;
use vstd::string::StringSliceAdditionalSpecFns;

verus! {

/// How a theme directory relates the icons it holds to a requested size.
#[derive(Debug, Clone, Copy, PartialEq, Eq, Structural)]
pub enum DirectoryType {
    Fixed,
    Scalable,
    Threshold,
}

impl DirectoryType {
    /// The type that the value of a `Type` key stands for: only its first byte
    /// counts, and anything but `F` and `S` is `Threshold`.
    pub open spec fn spec_from_bytes(value: Seq<u8>) -> DirectoryType {
        if value.len() > 0 && value[0] == 70 {
            DirectoryType::Fixed
        } else if value.len() > 0 && value[0] == 83 {
            DirectoryType::Scalable
        } else {
            DirectoryType::Threshold
        }
    }
}

impl<'a> From<&'a [u8]> for DirectoryType {
    fn from(value: &'a [u8]) -> (kind: DirectoryType) {
        if value.len() == 0 {
            DirectoryType::Threshold
        } else if value[0] == 70 {
            DirectoryType::Fixed
        } else if value[0] == 83 {
            DirectoryType::Scalable
        } else {
            DirectoryType::Threshold
        }
    }
}

impl<'a> vstd::std_specs::convert::FromSpecImpl<&'a [u8]> for DirectoryType {
    open spec fn obeys_from_spec() -> bool {
        true
    }

    open spec fn from_spec(value: &'a [u8]) -> DirectoryType {
        DirectoryType::spec_from_bytes(value@)
    }
}

impl Default for DirectoryType {
    fn default() -> (kind: DirectoryType)
        ensures
            kind == DirectoryType::Threshold,
    {
        DirectoryType::Threshold
    }
}

/// One directory section of a theme index: a name and its sizing rules.
#[derive(Debug, Clone, Copy)]
pub struct Directory<'a> {
    pub name: &'a str,
    pub size: i16,
    pub scale: i16,
    pub type_: DirectoryType,
    pub maxsize: i16,
    pub minsize: i16,
    pub threshold: i16,
}

/// What a `Directory` is: its name as bytes, and its numbers.
pub struct DirectoryView {
    pub name: Seq<u8>,
    pub size: int,
    pub scale: int,
    pub kind: DirectoryType,
    pub maxsize: int,
    pub minsize: int,
    pub threshold: int,
}

impl DirectoryView {
    /// The distance between what this directory serves and a requested size
    /// at a requested scale; 0 where the directory serves the request.
    ///
    /// A fixed directory is off by the difference of the scaled sizes. A
    /// scalable one serves every scaled size from `minsize` to `maxsize` and
    /// is off by the gap to the nearer bound outside of that range. A threshold
    /// one serves the sizes within `threshold` of its own, at the requested
    /// scale, and is off by the gap to `minsize` below and `maxsize` above.
    pub open spec fn distance(self, size: int, scale: int) -> int {
        let wanted = size * scale;
        match self.kind {
            DirectoryType::Fixed => self.size * self.scale - wanted,
            DirectoryType::Scalable => {
                if wanted < self.minsize * self.scale {
                    self.minsize * self.scale - wanted
                } else if wanted > self.maxsize * self.scale {
                    wanted - self.maxsize * self.scale
                } else {
                    0
                }
            },
            DirectoryType::Threshold => {
                if wanted < (self.size - self.threshold) * scale {
                    self.minsize * self.scale - wanted
                } else if wanted > (self.size + self.threshold) * scale {
                    wanted - self.maxsize * self.scale
                } else {
                    0
                }
            },
        }
    }

    /// Whether the directory serves the request exactly: its distance is 0,
    /// and a fixed directory has the requested size and scale themselves.
    pub open spec fn matches(self, size: int, scale: int) -> bool {
        &&& self.distance(size, scale) == 0
        &&& self.kind == DirectoryType::Fixed ==> self.size == size && self.scale == scale
    }

    /// The distance without its sign.
    pub open spec fn gap(self, size: int, scale: int) -> int {
        let d = self.distance(size, scale);
        if d < 0 {
            -d
        } else {
            d
        }
    }
}

impl<'a> View for Directory<'a> {
    type V = DirectoryView;

    open spec fn view(&self) -> DirectoryView {
        DirectoryView {
            name: self.name.spec_bytes(),
            size: self.size as int,
            scale: self.scale as int,
            kind: self.type_,
            maxsize: self.maxsize as int,
            minsize: self.minsize as int,
            threshold: self.threshold as int,
        }
    }
}

impl<'a> Directory<'a> {
    /// The signed distance of this directory from `size` at `scale`.
    pub fn directory_size_distance(&self, size: u16, scale: u16) -> (distance: i64)
        ensures
            distance == self@.distance(size as int, scale as int),
    {
        let wanted: i64 = mul_i64(size as i64, scale as i64);
        let own_scale: i64 = self.scale as i64;
        match self.type_ {
            DirectoryType::Fixed => mul_i64(self.size as i64, own_scale) - wanted,
            DirectoryType::Scalable => {
                let low: i64 = mul_i64(self.minsize as i64, own_scale);
                let high: i64 = mul_i64(self.maxsize as i64, own_scale);
                if wanted < low {
                    low - wanted
                } else if wanted > high {
                    wanted - high
                } else {
                    0
                }
            },
            DirectoryType::Threshold => {
                let low: i64 = mul_i64(self.size as i64 - self.threshold as i64, scale as i64);
                let high: i64 = mul_i64(self.size as i64 + self.threshold as i64, scale as i64);
                if wanted < low {
                    mul_i64(self.minsize as i64, own_scale) - wanted
                } else if wanted > high {
                    wanted - mul_i64(self.maxsize as i64, own_scale)
                } else {
                    0
                }
            },
        }
    }

    /// Whether this directory serves `size` at `scale` exactly.
    pub fn matches_size(&self, size: u16, scale: u16) -> (exact: bool)
        ensures
            exact == self@.matches(size as int, scale as int),
    {
        let distance: i64 = self.directory_size_distance(size, scale);
        if distance != 0 {
            return false;
        }
        match self.type_ {
            DirectoryType::Fixed => self.size as i64 == size as i64 && self.scale as i64
                == scale as i64,
            _ => true,
        }
    }

    /// The distance of this directory from `size` at `scale`, without its sign.
    pub fn size_gap(&self, size: u16, scale: u16) -> (gap: u64)
        ensures
            gap == self@.gap(size as int, scale as int),
            gap <= 0x2_0000_0000,
    {
        let distance: i64 = self.directory_size_distance(size, scale);
        proof {
            lemma_distance_bound(self@, size as int, scale as int);
        }
        if distance < 0 {
            (-distance) as u64
        } else {
            distance as u64
        }
    }
}

/// The product of two numbers of at most 17 bits, which fits.
fn mul_i64(a: i64, b: i64) -> (product: i64)
    requires
        -0x2_0000 <= a <= 0x2_0000,
        -0x2_0000 <= b <= 0x2_0000,
    ensures
        product == a * b,
        -0x4_0000_0000 <= product <= 0x4_0000_0000,
{
    assert(-0x4_0000_0000 <= a * b <= 0x4_0000_0000) by (nonlinear_arith)
        requires
            -0x2_0000 <= a <= 0x2_0000,
            -0x2_0000 <= b <= 0x2_0000,
    ;
    a * b
}

/// Distances of 16-bit sizes and scales stay far inside 64 bits.
pub proof fn lemma_distance_bound(d: DirectoryView, size: int, scale: int)
    requires
        -0x8000 <= d.size < 0x8000,
        -0x8000 <= d.scale < 0x8000,
        -0x8000 <= d.maxsize < 0x8000,
        -0x8000 <= d.minsize < 0x8000,
        -0x8000 <= d.threshold < 0x8000,
        0 <= size < 0x1_0000,
        0 <= scale < 0x1_0000,
    ensures
        -0x2_0000_0000 <= d.distance(size, scale) <= 0x2_0000_0000,
{
    assert(0 <= size * scale <= 0x1_0000_0000) by (nonlinear_arith)
        requires
            0 <= size < 0x1_0000,
            0 <= scale < 0x1_0000,
    ;
    assert(-0x4000_0000 <= d.size * d.scale <= 0x4000_0000) by (nonlinear_arith)
        requires
            -0x8000 <= d.size < 0x8000,
            -0x8000 <= d.scale < 0x8000,
    ;
    assert(-0x4000_0000 <= d.minsize * d.scale <= 0x4000_0000) by (nonlinear_arith)
        requires
            -0x8000 <= d.minsize < 0x8000,
            -0x8000 <= d.scale < 0x8000,
    ;
    assert(-0x4000_0000 <= d.maxsize * d.scale <= 0x4000_0000) by (nonlinear_arith)
        requires
            -0x8000 <= d.maxsize < 0x8000,
            -0x8000 <= d.scale < 0x8000,
    ;
}

} // verus!
