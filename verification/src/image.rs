//! A module image read from disk (PE, ELF, Mach-O, ...): its bytes, its
//! relative address base and its section table, and what the analyses read
//! from them: the section list, the bytes at a virtual address, and the
//! places where a byte signature matches.

use vstd::prelude::*;
use crate::pattern::{matches_at, window_matches, Pattern};
use object::{Object, ObjectSection};

verus! {

/// The error type of the `object` crate's readers.
#[verifier::external_type_specification]
#[verifier::external_body]
pub struct ExObjectError(object::read::Error);

/// One row of a module's section table, as the object reader reports it.
#[derive(Debug, Clone)]
pub struct ImageSection {
    /// The section's name, or `None` when the reader cannot decode it.
    pub name: Option<String>,
    /// The section's address relative to the image base.
    pub address: u64,
    /// The section's size in memory.
    pub size: u64,
    /// The offset and size of the section's data in the file, when it has any.
    pub file_range: Option<(u64, u64)>,
    /// The COFF `Characteristics` field, for COFF and PE sections.
    pub characteristics: Option<u32>,
}

/// The plain-value form of a section row: name, address, size, file range,
/// COFF characteristics.
pub type SectionRow = (Option<Seq<char>>, u64, u64, Option<(u64, u64)>, Option<u32>);

impl View for ImageSection {
    type V = SectionRow;

    open spec fn view(&self) -> SectionRow {
        (
            match self.name {
                Some(n) => Some(n@),
                None => None,
            },
            self.address,
            self.size,
            self.file_range,
            self.characteristics,
        )
    }
}

/// What the object reader reports of a module file: the relative address
/// base and the section table in header order.
pub struct ImageLayout {
    /// The base that section addresses are relative to.
    pub base: u64,
    /// The section table.
    pub sections: Vec<ImageSection>,
}

/// The layout that the `object` crate reads from a file's bytes, or `None`
/// when it cannot parse them.
pub uninterp spec fn object_layout(bytes: Seq<u8>) -> Option<(u64, Seq<SectionRow>)>;

/// Parses a module file with `object::File::parse` and reads its
/// `relative_address_base` and, for each section in order, `name` (an error
/// becomes `None`), `address`, `size`, `file_range` and the COFF
/// `characteristics` of `flags`. The contract claims that the result is
/// `object_layout` of the bytes, a function of the bytes alone, and that a
/// parse error is returned exactly when that is `None`; nothing more of the
/// format is stated.
#[verifier::external_body]
fn read_layout(bytes: &[u8]) -> (r: Result<ImageLayout, object::read::Error>)
    ensures
        match object_layout(bytes@) {
            Some((base, rows)) => r matches Ok(l) && l.base == base && l.sections@.map_values(
                |s: ImageSection| s@,
            ) == rows,
            None => r is Err,
        },
{
    let file = object::File::parse(bytes)?;
    let sections = file.sections().map(|s| ImageSection {
        name: s.name().ok().map(String::from),
        address: s.address(),
        size: s.size(),
        file_range: s.file_range(),
        characteristics: match s.flags() {
            object::SectionFlags::Coff { characteristics } => Some(characteristics),
            _ => None,
        },
    }).collect();
    Ok(ImageLayout { base: file.relative_address_base(), sections })
}

/// The PE section characteristic that marks a section as executable.
pub const IMAGE_SCN_MEM_EXECUTE: u32 = 0x2000_0000;

/// Why reading a module or an address in it failed.
#[derive(Debug)]
pub enum ImageError {
    /// The object reader could not parse the file.
    Parse(object::read::Error),
    /// The address lies below the image base.
    BelowImageBase { va: u64, base: u64 },
    /// The section that holds the address has no data in the file.
    NoFileRange { va: u64 },
    /// No section holds the address.
    Unmapped { va: u64 },
}

/// A loaded module: where it came from, its bytes and its layout.
pub struct ModuleImage {
    /// The path the module was read from.
    pub path: String,
    /// The base that section addresses are relative to.
    pub base: u64,
    /// The whole file.
    pub bytes: Vec<u8>,
    /// The section table, in header order.
    pub sections: Vec<ImageSection>,
}

/// One section as the analyses present it.
#[derive(Debug, Clone)]
pub struct SectionInfo {
    /// The section's name, `<unnamed>` when it cannot be decoded.
    pub name: String,
    /// The section's virtual address: image base plus relative address.
    pub address: u64,
    /// The section's size in memory.
    pub size: u64,
    /// The offset and size of the section's data in the file.
    pub file_range: Option<(u64, u64)>,
    /// Whether the section is executable code.
    pub executable: bool,
}

/// One place where a signature matched.
#[derive(Debug, Clone, Copy, PartialEq, Eq)]
pub struct PatternMatch {
    /// The match's address relative to the image base.
    pub rva: u64,
    /// The match's virtual address.
    pub virtual_address: u64,
}

/// Whether a section is executable: a COFF section whose characteristics
/// hold `IMAGE_SCN_MEM_EXECUTE`.
pub open spec fn is_executable(characteristics: Option<u32>) -> bool {
    match characteristics {
        Some(c) => c & IMAGE_SCN_MEM_EXECUTE != 0,
        None => false,
    }
}

/// The text that stands for a section name that cannot be decoded.
pub open spec fn unnamed() -> Seq<char> {
    seq!['<', 'u', 'n', 'n', 'a', 'm', 'e', 'd', '>']
}

/// The presentation of a section of an image with base `base`.
pub open spec fn section_info(base: u64, s: SectionRow) -> (Seq<char>, u64, u64, Option<(u64, u64)>, bool) {
    (
        match s.0 {
            Some(n) => n,
            None => unnamed(),
        },
        (base + s.1) as u64,
        s.2,
        s.3,
        is_executable(s.4),
    )
}

impl SectionInfo {
    /// The plain-value form: name, address, size, file range, executable.
    pub open spec fn row(&self) -> (Seq<char>, u64, u64, Option<(u64, u64)>, bool) {
        (self.name@, self.address, self.size, self.file_range, self.executable)
    }
}

/// The first section at or after index `k` whose memory range, which ends at
/// `address + size` capped at `u64::MAX`, holds the relative address `rva`.
pub open spec fn section_holding(secs: Seq<SectionRow>, rva: u64, k: int) -> Option<int>
    decreases secs.len() - k,
{
    if k < 0 || k >= secs.len() {
        None
    } else if secs[k].1 <= rva && rva < (if secs[k].1 + secs[k].2 > u64::MAX {
        u64::MAX as int
    } else {
        secs[k].1 + secs[k].2
    }) {
        Some(k)
    } else {
        section_holding(secs, rva, k + 1)
    }
}

proof fn lemma_section_holding(secs: Seq<SectionRow>, rva: u64, k: int)
    ensures
        section_holding(secs, rva, k) matches Some(j) ==> k <= j < secs.len() && secs[j].1 <= rva,
    decreases secs.len() - k,
{
    if 0 <= k < secs.len() {
        lemma_section_holding(secs, rva, k + 1);
    }
}

/// Where the bytes that start at `va` lie in the file, for a read of at most
/// `len` bytes: `Ok((start, end))` with `start` before any clamping to the
/// file, or the reason there are none.
pub open spec fn read_range(base: u64, secs: Seq<SectionRow>, file_len: int, va: u64, len: u64) -> Result<
    (int, int),
    ImageError,
> {
    if va < base {
        Err(ImageError::BelowImageBase { va, base })
    } else {
        let rva = (va - base) as u64;
        match section_holding(secs, rva, 0) {
            None => Err(ImageError::Unmapped { va }),
            Some(k) => match secs[k].3 {
                None => Err(ImageError::NoFileRange { va }),
                Some((off, fsize)) => {
                    let in_section = rva - secs[k].1;
                    let available = if fsize >= in_section {
                        fsize - in_section
                    } else {
                        0
                    };
                    let read = if len <= available {
                        len as int
                    } else {
                        available
                    };
                    let start = off + in_section;
                    let end = if start + read <= file_len {
                        start + read
                    } else {
                        file_len
                    };
                    Ok((start, end))
                },
            },
        }
    }
}

/// The start and end of the file data of a section with the file range
/// `range`, the end clamped to the file's length.
pub open spec fn file_window(range: (u64, u64), file_len: int) -> (int, int) {
    (
        range.0 as int,
        if range.0 + range.1 <= file_len {
            range.0 + range.1
        } else {
            file_len
        },
    )
}

/// The number of offsets at which a signature of length `plen` fits in
/// `dlen` bytes.
pub open spec fn window_count(plen: int, dlen: int) -> int {
    if plen > dlen {
        0
    } else {
        dlen - plen + 1
    }
}

/// The offsets below `n`, ascending, at which the signature matches the
/// bytes that start at `lo`.
pub open spec fn matching_offsets(pattern: Seq<Option<u8>>, bytes: Seq<u8>, lo: int, n: int) -> Seq<int>
    decreases n,
{
    if n <= 0 {
        seq![]
    } else {
        matching_offsets(pattern, bytes, lo, n - 1) + (if window_matches(pattern, bytes, lo + n - 1) {
            seq![n - 1]
        } else {
            Seq::<int>::empty()
        })
    }
}

/// The offsets, within a section's file data, where the signature matches.
pub open spec fn section_offsets(pattern: Seq<Option<u8>>, bytes: Seq<u8>, s: SectionRow) -> Seq<int> {
    match s.3 {
        None => seq![],
        Some(range) => {
            let (lo, hi) = file_window(range, bytes.len() as int);
            matching_offsets(pattern, bytes, lo, window_count(pattern.len() as int, hi - lo))
        },
    }
}

/// The matches in one section, in ascending order of address.
pub open spec fn section_matches(pattern: Seq<Option<u8>>, base: u64, bytes: Seq<u8>, s: SectionRow) -> Seq<
    PatternMatch,
> {
    section_offsets(pattern, bytes, s).map_values(
        |o: int| PatternMatch { rva: (s.1 + o) as u64, virtual_address: (base + s.1 + o) as u64 },
    )
}

/// The matches in the first `k` sections, section by section.
pub open spec fn scan_upto(pattern: Seq<Option<u8>>, base: u64, bytes: Seq<u8>, secs: Seq<SectionRow>, k: int) -> Seq<
    PatternMatch,
>
    decreases k,
{
    if k <= 0 || k > secs.len() {
        seq![]
    } else {
        scan_upto(pattern, base, bytes, secs, k - 1) + section_matches(pattern, base, bytes, secs[k - 1])
    }
}

/// Whether scanning one section for the signature stays within the file and
/// within `u64` addresses: its file data starts inside the file, and the
/// virtual address of every match fits in a `u64`.
pub open spec fn section_scan_fits(pattern: Seq<Option<u8>>, base: u64, bytes: Seq<u8>, s: SectionRow) -> bool {
    match s.3 {
        None => true,
        Some(range) => {
            &&& range.0 <= bytes.len()
            &&& forall|j: int|
                0 <= j < section_offsets(pattern, bytes, s).len() ==> base + s.1 + #[trigger] section_offsets(
                    pattern,
                    bytes,
                    s,
                )[j] <= u64::MAX
        },
    }
}

proof fn lemma_matching_offsets_bounds(pattern: Seq<Option<u8>>, bytes: Seq<u8>, lo: int, n: int)
    ensures
        forall|j: int|
            0 <= j < matching_offsets(pattern, bytes, lo, n).len() ==> 0 <= #[trigger] matching_offsets(
                pattern,
                bytes,
                lo,
                n,
            )[j] < n,
        forall|j: int, l: int|
            0 <= j < l < matching_offsets(pattern, bytes, lo, n).len() ==> #[trigger] matching_offsets(
                pattern,
                bytes,
                lo,
                n,
            )[j] < #[trigger] matching_offsets(pattern, bytes, lo, n)[l],
        forall|j: int|
            0 <= j < matching_offsets(pattern, bytes, lo, n).len() ==> window_matches(
                pattern,
                bytes,
                lo + #[trigger] matching_offsets(pattern, bytes, lo, n)[j],
            ),
        forall|o: int|
            0 <= o < n && window_matches(pattern, bytes, lo + o) ==> #[trigger] matching_offsets(
                pattern,
                bytes,
                lo,
                n,
            ).contains(o),
    decreases n,
{
    if n > 0 {
        lemma_matching_offsets_bounds(pattern, bytes, lo, n - 1);
        let prev = matching_offsets(pattern, bytes, lo, n - 1);
        let cur = matching_offsets(pattern, bytes, lo, n);
        if window_matches(pattern, bytes, lo + n - 1) {
            assert(cur == prev.push(n - 1));
            assert forall|o: int|
                0 <= o < n && window_matches(pattern, bytes, lo + o) implies #[trigger] cur.contains(o) by {
                if o < n - 1 {
                    assert(prev.contains(o));
                    let w = choose|w: int| 0 <= w < prev.len() && prev[w] == o;
                    assert(cur[w] == o);
                } else {
                    assert(cur[prev.len() as int] == o);
                }
            }
        } else {
            assert(cur =~= prev);
        }
    }
}

impl ModuleImage {
    /// The section table as plain values.
    pub open spec fn rows(&self) -> Seq<SectionRow> {
        self.sections@.map_values(|s: ImageSection| s@)
    }

    /// Builds a module from the bytes of the file at `path`; fails when the
    /// object reader cannot parse them.
    pub fn load(path: String, bytes: Vec<u8>) -> (r: Result<ModuleImage, ImageError>)
        ensures
            match object_layout(bytes@) {
                Some((base, rows)) => r matches Ok(m) && m.path == path && m.bytes@ == bytes@
                    && m.base == base && m.rows() == rows,
                None => r matches Err(ImageError::Parse(_)),
            },
    {
        match read_layout(bytes.as_slice()) {
            Ok(layout) => Ok(ModuleImage { path, base: layout.base, bytes, sections: layout.sections }),
            Err(e) => Err(ImageError::Parse(e)),
        }
    }

    /// Whether every section's virtual address, base plus relative address,
    /// fits in a `u64`.
    pub open spec fn addresses_fit(&self) -> bool {
        forall|k: int| 0 <= k < self.sections@.len() ==> self.base + (#[trigger] self.sections@[k]).address <= u64::MAX
    }

    /// Tests `addresses_fit`.
    pub fn check_addresses_fit(&self) -> (b: bool)
        ensures
            b == self.addresses_fit(),
    {
        let n = self.sections.len();
        for k in 0..n
            invariant
                n == self.sections@.len(),
                forall|j: int| 0 <= j < k ==> self.base + (#[trigger] self.sections@[j]).address <= u64::MAX,
        {
            if self.sections[k].address > u64::MAX - self.base {
                return false;
            }
        }
        true
    }

    /// Lists the sections: name (`<unnamed>` when it cannot be decoded),
    /// virtual address, size, file range, and whether it is executable.
    pub fn sections(&self) -> (r: Result<Vec<SectionInfo>, ImageError>)
        requires
            self.addresses_fit(),
        ensures
            r matches Ok(v) && v@.len() == self.sections@.len() && forall|k: int|
                0 <= k < v@.len() ==> (#[trigger] v@[k]).row() == section_info(self.base, self.rows()[k]),
            r matches Ok(v) ==> forall|k: int|
                0 <= k < v@.len() ==> {
                    let s = #[trigger] self.sections@[k];
                    &&& v@[k].file_range == s.file_range
                    &&& v@[k].size == s.size
                    &&& v@[k].address == self.base + s.address
                    &&& v@[k].executable == (s.characteristics matches Some(c) && c & 0x2000_0000u32 != 0)
                    &&& (s.name matches Some(n) ==> v@[k].name@ == n@)
                    &&& (s.name is None ==> v@[k].name@ == seq!['<', 'u', 'n', 'n', 'a', 'm', 'e', 'd', '>'])
                },
    {
        let n = self.sections.len();
        let mut out: Vec<SectionInfo> = Vec::new();
        for k in 0..n
            invariant
                n == self.sections@.len(),
                self.addresses_fit(),
                out@.len() == k,
                forall|j: int| 0 <= j < k ==> (#[trigger] out@[j]).row() == section_info(self.base, self.rows()[j]),
        {
            let s = &self.sections[k];
            let name = match &s.name {
                Some(n) => n.clone(),
                None => {
                    let u = "<unnamed>".to_owned();
                    proof {
                        reveal_strlit("<unnamed>");
                        assert(u@ =~= unnamed());
                    }
                    u
                },
            };
            let executable = match s.characteristics {
                Some(c) => c & IMAGE_SCN_MEM_EXECUTE != 0,
                None => false,
            };
            assert(self.base + self.sections@[k as int].address <= u64::MAX);
            out.push(
                SectionInfo {
                    name,
                    address: self.base + s.address,
                    size: s.size,
                    file_range: s.file_range,
                    executable,
                },
            );
        }
        proof {
            assert forall|k: int| 0 <= k < out@.len() implies {
                let s = #[trigger] self.sections@[k];
                &&& out@[k].file_range == s.file_range
                &&& out@[k].size == s.size
                &&& out@[k].address == self.base + s.address
                &&& out@[k].executable == (s.characteristics matches Some(c) && c & 0x2000_0000u32 != 0)
                &&& (s.name matches Some(n) ==> out@[k].name@ == n@)
                &&& (s.name is None ==> out@[k].name@ == seq!['<', 'u', 'n', 'n', 'a', 'm', 'e', 'd', '>'])
            } by {
                assert(self.rows()[k] == self.sections@[k]@);
                assert(self.base + self.sections@[k].address <= u64::MAX);
                law_section_info_keeps_fields(self.base, self.rows()[k]);
            }
        }
        Ok(out)
    }

    /// Where the read that `bytes_at_va` makes lies in the file.
    pub open spec fn spec_read_range(&self, va: u64, len: u64) -> Result<(int, int), ImageError> {
        read_range(self.base, self.rows(), self.bytes@.len() as int, va, len)
    }

    /// Whether a read at `va` starts inside the file, when it finds a section
    /// with file data at all.
    pub open spec fn read_in_bounds(&self, va: u64, len: u64) -> bool {
        self.spec_read_range(va, len) matches Ok((start, _)) ==> start <= self.bytes@.len()
    }

    /// Finds the first section whose memory range holds `rva`.
    fn find_section(&self, rva: u64) -> (r: Option<usize>)
        ensures
            match section_holding(self.rows(), rva, 0) {
                Some(k) => r == Some(k as usize),
                None => r is None,
            },
            r matches Some(i) ==> i < self.sections@.len() && self.sections@[i as int].address <= rva
                && section_holding(self.rows(), rva, 0) == Some(i as int),
    {
        proof {
            lemma_section_holding(self.rows(), rva, 0);
        }
        let n = self.sections.len();
        let ghost rows = self.rows();
        let mut k: usize = 0;
        while k < n
            invariant
                n == self.sections@.len(),
                rows == self.rows(),
                k <= n,
                section_holding(rows, rva, 0) == section_holding(rows, rva, k as int),
            decreases n - k,
        {
            let s = &self.sections[k];
            let end = s.address.saturating_add(s.size);
            assert(rows[k as int] == s@);
            if s.address <= rva && rva < end {
                return Some(k);
            }
            k = k + 1;
        }
        None
    }

    /// Locates the file bytes of a read of at most `len` bytes at `va`;
    /// `Ok(None)` when the read would start past the end of the file.
    fn locate(&self, va: u64, len: u64) -> (r: Result<Option<(usize, usize)>, ImageError>)
        ensures
            match self.spec_read_range(va, len) {
                Ok((start, end)) => if start <= self.bytes@.len() {
                    r == Ok::<Option<(usize, usize)>, ImageError>(Some((start as usize, end as usize)))
                } else {
                    r == Ok::<Option<(usize, usize)>, ImageError>(None)
                },
                Err(e) => r == Err::<Option<(usize, usize)>, ImageError>(e),
            },
            r matches Ok(Some((s, e))) ==> s <= e <= self.bytes@.len() && self.spec_read_range(va, len)
                == Ok::<(int, int), ImageError>((s as int, e as int)),
    {
        if va < self.base {
            return Err(ImageError::BelowImageBase { va, base: self.base });
        }
        let rva = va - self.base;
        match self.find_section(rva) {
            None => Err(ImageError::Unmapped { va }),
            Some(k) => {
                let s = &self.sections[k];
                assert(self.rows()[k as int] == s@);
                match s.file_range {
                    None => Err(ImageError::NoFileRange { va }),
                    Some((off, fsize)) => {
                        let in_section = rva - s.address;
                        let available = fsize.saturating_sub(in_section);
                        let read = if len <= available {
                            len
                        } else {
                            available
                        };
                        let file_len = self.bytes.len();
                        let flen = file_len as u64;
                        proof {
                            let rows = self.rows();
                            assert(section_holding(rows, rva, 0) == Some(k as int));
                            assert(rows[k as int].3 == Some((off, fsize)));
                            assert(rows[k as int].1 == s.address);
                            assert(self.spec_read_range(va, len) matches Ok((st, _)) && st == off + in_section);
                        }
                        if off > flen || in_section > flen - off {
                            return Ok(None);
                        }
                        let start = off + in_section;
                        let end = if read <= flen - start {
                            start + read
                        } else {
                            flen
                        };
                        Ok(Some((start as usize, end as usize)))
                    },
                }
            },
        }
    }

    /// Tests `read_in_bounds`: whether a read at `va` would start inside the
    /// file.
    pub fn can_read_at(&self, va: u64, len: u64) -> (b: bool)
        ensures
            b == self.read_in_bounds(va, len),
    {
        match self.locate(va, len) {
            Ok(None) => false,
            _ => true,
        }
    }

    /// The bytes of the file at the virtual address `va`: at most `len`
    /// bytes, no further than the end of the section's file data or of the
    /// file.
    pub fn bytes_at_va(&self, va: u64, len: u64) -> (r: Result<&[u8], ImageError>)
        requires
            self.read_in_bounds(va, len),
        ensures
            match self.spec_read_range(va, len) {
                Ok((start, end)) => r matches Ok(b) && b@ == self.bytes@.subrange(start, end),
                Err(e) => r matches Err(x) && x == e,
            },
    {
        match self.locate(va, len) {
            Ok(Some((start, end))) => Ok(vstd::slice::slice_subrange(self.bytes.as_slice(), start, end)),
            Ok(None) => Err(ImageError::Unmapped { va }),
            Err(e) => Err(e),
        }
    }

    /// The matches of the signature in this image, section by section.
    pub open spec fn spec_scan(&self, pattern: Seq<Option<u8>>) -> Seq<PatternMatch> {
        scan_upto(pattern, self.base, self.bytes@, self.rows(), self.sections@.len() as int)
    }

    /// Whether a scan for the signature stays within the file and within
    /// `u64` addresses in every section.
    pub open spec fn scan_fits(&self, pattern: Seq<Option<u8>>) -> bool {
        forall|k: int|
            0 <= k < self.sections@.len() ==> section_scan_fits(
                pattern,
                self.base,
                self.bytes@,
                #[trigger] self.rows()[k],
            )
    }

    /// Scans every section's file data for the signature; `None` when the
    /// signature is empty or the scan does not fit (see `scan_fits`).
    fn scan_sections(&self, pattern: &Pattern) -> (r: Option<Vec<PatternMatch>>)
        ensures
            r is Some <==> (pattern@.len() > 0 && self.scan_fits(pattern@)),
            r matches Some(v) ==> v@ == self.spec_scan(pattern@),
    {
        let plen = pattern.0.len();
        if plen == 0 {
            return None;
        }
        let n = self.sections.len();
        let file_len = self.bytes.len();
        let flen = file_len as u64;
        let ghost rows = self.rows();
        let ghost p = pattern@;
        let ghost bytes = self.bytes@;
        let mut out: Vec<PatternMatch> = Vec::new();
        for k in 0..n
            invariant
                n == self.sections@.len(),
                rows == self.rows(),
                p == pattern@,
                bytes == self.bytes@,
                file_len == bytes.len(),
                flen == file_len,
                plen == p.len(),
                plen > 0,
                out@ == scan_upto(p, self.base, bytes, rows, k as int),
                forall|j: int| 0 <= j < k ==> section_scan_fits(p, self.base, bytes, #[trigger] rows[j]),
        {
            let s = &self.sections[k];
            assert(rows[k as int] == s@);
            let ghost before = out@;
            match s.file_range {
                None => {
                    assert(section_matches(p, self.base, bytes, s@) =~= Seq::<PatternMatch>::empty());
                    assert(out@ =~= before + section_matches(p, self.base, bytes, s@));
                },
                Some((off, fsize)) => {
                    if off > flen {
                        assert(!section_scan_fits(p, self.base, bytes, rows[k as int]));
                        return None;
                    }
                    let lo = off as usize;
                    let hi: usize = if fsize <= flen - off {
                        (off + fsize) as usize
                    } else {
                        file_len
                    };
                    let count: usize = if plen > hi - lo {
                        0
                    } else {
                        hi - lo - plen + 1
                    };
                    assert(file_window((off, fsize), bytes.len() as int) == (lo as int, hi as int));
                    assert(count == window_count(plen as int, hi - lo));
                    let ghost f = |o: int|
                        PatternMatch {
                            rva: (s.address + o) as u64,
                            virtual_address: (self.base + s.address + o) as u64,
                        };
                    let mut o: usize = 0;
                    while o < count
                        invariant
                            o <= count,
                            k < self.sections@.len(),
                            rows == self.rows(),
                            rows[k as int] == s@,
                            s@.3 == Some((off, fsize)),
                            p == pattern@,
                            bytes == self.bytes@,
                            file_len == bytes.len(),
                            plen == p.len(),
                            lo <= hi <= file_len,
                            lo == off,
                            file_window((off, fsize), bytes.len() as int) == (lo as int, hi as int),
                            count == window_count(plen as int, hi - lo),
                            f == (|o: int|
                                PatternMatch {
                                    rva: (s.address + o) as u64,
                                    virtual_address: (self.base + s.address + o) as u64,
                                }),
                            out@ == before + matching_offsets(p, bytes, lo as int, o as int).map_values(f),
                            forall|j: int|
                                0 <= j < matching_offsets(p, bytes, lo as int, o as int).len() ==> self.base
                                    + s.address + #[trigger] matching_offsets(p, bytes, lo as int, o as int)[j]
                                    <= u64::MAX,
                        decreases count - o,
                    {
                        let ghost prev = matching_offsets(p, bytes, lo as int, o as int);
                        let ghost next = matching_offsets(p, bytes, lo as int, o as int + 1);
                        let is_match = matches_at(&pattern.0, &self.bytes, lo + o);
                        if is_match {
                            assert(next == prev.push(o as int));
                            let rva = match s.address.checked_add(o as u64) {
                                Some(x) => x,
                                None => {
                                    proof {
                                        lemma_overflow_breaks_fit(p, self.base, bytes, s@, lo as int, count as int, o as int);
                                        assert(!section_scan_fits(p, self.base, bytes, self.rows()[k as int]));
                                    }
                                    return None;
                                },
                            };
                            let va = match self.base.checked_add(rva) {
                                Some(x) => x,
                                None => {
                                    proof {
                                        lemma_overflow_breaks_fit(p, self.base, bytes, s@, lo as int, count as int, o as int);
                                        assert(!section_scan_fits(p, self.base, bytes, self.rows()[k as int]));
                                    }
                                    return None;
                                },
                            };
                            out.push(PatternMatch { rva, virtual_address: va });
                            assert(next.map_values(f) =~= prev.map_values(f).push(f(o as int)));
                            assert(out@ =~= before + next.map_values(f));
                            assert forall|j: int| 0 <= j < next.len() implies self.base + s.address
                                + #[trigger] next[j] <= u64::MAX by {
                                if j < prev.len() {
                                    assert(next[j] == prev[j]);
                                }
                            }
                        } else {
                            assert(!window_matches(p, bytes, lo + o));
                            assert(next =~= prev);
                        }
                        assert(forall|j: int|
                            0 <= j < next.len() ==> self.base + s.address + #[trigger] next[j] <= u64::MAX);
                        o = o + 1;
                    }
                    assert(section_offsets(p, bytes, s@) == matching_offsets(p, bytes, lo as int, count as int));
                    assert(section_scan_fits(p, self.base, bytes, s@));
                    assert(out@ =~= before + section_matches(p, self.base, bytes, s@));
                },
            }
            assert(scan_upto(p, self.base, bytes, rows, k as int + 1) == before + section_matches(
                p,
                self.base,
                bytes,
                rows[k as int],
            ));
        }
        assert(self.scan_fits(pattern@));
        Some(out)
    }
}

/// A match whose virtual address overflows a `u64` makes the section's
/// scan not fit.
proof fn lemma_overflow_breaks_fit(
    p: Seq<Option<u8>>,
    base: u64,
    bytes: Seq<u8>,
    s: SectionRow,
    lo: int,
    count: int,
    o: int,
)
    requires
        s.3 is Some,
        file_window(s.3->0, bytes.len() as int).0 == lo,
        count == window_count(p.len() as int, file_window(s.3->0, bytes.len() as int).1 - lo),
        0 <= o < count,
        window_matches(p, bytes, lo + o),
        base + s.1 + o > u64::MAX,
    ensures
        !section_scan_fits(p, base, bytes, s),
{
    lemma_matching_offsets_bounds(p, bytes, lo, count);
    let offs = matching_offsets(p, bytes, lo, count);
    assert(section_offsets(p, bytes, s) == offs);
    assert(offs.contains(o));
    let j = choose|j: int| 0 <= j < offs.len() && offs[j] == o;
    assert(base + s.1 + offs[j] > u64::MAX);
}

/// Finds every place where the signature matches the file data of a
/// section: for each section in order, each offset in ascending order.
pub fn scan_pattern(image: &ModuleImage, pattern: &Pattern) -> (r: Vec<PatternMatch>)
    requires
        pattern@.len() > 0,
        image.scan_fits(pattern@),
    ensures
        r@ == image.spec_scan(pattern@),
{
    match image.scan_sections(pattern) {
        Some(v) => v,
        None => Vec::new(),
    }
}

/// `scan_pattern` where its precondition holds; `None` otherwise.
pub fn try_scan_pattern(image: &ModuleImage, pattern: &Pattern) -> (r: Option<Vec<PatternMatch>>)
    ensures
        r is Some <==> (pattern@.len() > 0 && image.scan_fits(pattern@)),
        r matches Some(v) ==> v@ == image.spec_scan(pattern@),
{
    image.scan_sections(pattern)
}


/// Scanning: every reported match lies in a section with file data, at an
/// offset below the number of windows of that data where the signature
/// matches the file bytes; its relative address is the section's address
/// plus the offset, and its virtual address is the image base plus that.
/// Returns the section index and the offset.
pub proof fn law_scan_sound(image: &ModuleImage, pattern: Seq<Option<u8>>, i: int) -> (ko: (int, int))
    requires
        image.scan_fits(pattern),
        0 <= i < image.spec_scan(pattern).len(),
    ensures
        0 <= ko.0 < image.sections@.len(),
        image.rows()[ko.0].3 is Some,
        ({
            let s = image.rows()[ko.0];
            let (lo, hi) = file_window(s.3->0, image.bytes@.len() as int);
            &&& 0 <= ko.1 < window_count(pattern.len() as int, hi - lo)
            &&& window_matches(pattern, image.bytes@, lo + ko.1)
            &&& image.spec_scan(pattern)[i].rva == s.1 + ko.1
            &&& image.spec_scan(pattern)[i].virtual_address == image.base + s.1 + ko.1
            &&& forall|j: int|
                0 <= j < pattern.len() && (#[trigger] pattern[j]) is Some ==> image.bytes@[lo + ko.1 + j]
                    == pattern[j]->0
        }),
{
    let ko = lemma_scan_sound_upto(image, pattern, image.sections@.len() as int, i);
    let s = image.rows()[ko.0];
    let (lo, hi) = file_window(s.3->0, image.bytes@.len() as int);
    crate::pattern::law_window_is_byte_equality(pattern, image.bytes@, lo + ko.1);
    ko
}

proof fn lemma_scan_sound_upto(image: &ModuleImage, pattern: Seq<Option<u8>>, n: int, i: int) -> (ko: (int, int))
    requires
        image.scan_fits(pattern),
        0 <= n <= image.sections@.len(),
        0 <= i < scan_upto(pattern, image.base, image.bytes@, image.rows(), n).len(),
    ensures
        0 <= ko.0 < n,
        image.rows()[ko.0].3 is Some,
        ({
            let s = image.rows()[ko.0];
            let (lo, hi) = file_window(s.3->0, image.bytes@.len() as int);
            &&& 0 <= ko.1 < window_count(pattern.len() as int, hi - lo)
            &&& window_matches(pattern, image.bytes@, lo + ko.1)
            &&& scan_upto(pattern, image.base, image.bytes@, image.rows(), n)[i].rva == s.1 + ko.1
            &&& scan_upto(pattern, image.base, image.bytes@, image.rows(), n)[i].virtual_address
                == image.base + s.1 + ko.1
        }),
    decreases n,
{
    let rows = image.rows();
    let bytes = image.bytes@;
    let prev = scan_upto(pattern, image.base, bytes, rows, n - 1);
    let sm = section_matches(pattern, image.base, bytes, rows[n - 1]);
    assert(scan_upto(pattern, image.base, bytes, rows, n) == prev + sm);
    if i < prev.len() {
        let ko = lemma_scan_sound_upto(image, pattern, n - 1, i);
        assert((prev + sm)[i] == prev[i]);
        ko
    } else {
        let s = rows[n - 1];
        let j = i - prev.len();
        assert((prev + sm)[i] == sm[j]);
        let (lo, hi) = file_window(s.3->0, bytes.len() as int);
        let count = window_count(pattern.len() as int, hi - lo);
        lemma_matching_offsets_bounds(pattern, bytes, lo, count);
        let offs = section_offsets(pattern, bytes, s);
        assert(offs == matching_offsets(pattern, bytes, lo, count));
        let o = offs[j];
        assert(image.scan_fits(pattern) ==> section_scan_fits(pattern, image.base, bytes, rows[n - 1]));
        assert(image.base + s.1 + offs[j] <= u64::MAX);
        (n - 1, o)
    }
}

/// Scanning: every offset of a section's file data at which the signature
/// matches is reported, with relative address section address plus offset
/// and virtual address image base plus that.
pub proof fn law_scan_complete(image: &ModuleImage, pattern: Seq<Option<u8>>, k: int, o: int)
    requires
        0 <= k < image.sections@.len(),
        image.rows()[k].3 is Some,
        ({
            let (lo, hi) = file_window(image.rows()[k].3->0, image.bytes@.len() as int);
            &&& 0 <= o < window_count(pattern.len() as int, hi - lo)
            &&& window_matches(pattern, image.bytes@, lo + o)
        }),
    ensures
        image.spec_scan(pattern).contains(
            PatternMatch {
                rva: (image.rows()[k].1 + o) as u64,
                virtual_address: (image.base + image.rows()[k].1 + o) as u64,
            },
        ),
{
    let rows = image.rows();
    let bytes = image.bytes@;
    let s = rows[k];
    let (lo, hi) = file_window(s.3->0, bytes.len() as int);
    let count = window_count(pattern.len() as int, hi - lo);
    lemma_matching_offsets_bounds(pattern, bytes, lo, count);
    let offs = section_offsets(pattern, bytes, s);
    assert(offs == matching_offsets(pattern, bytes, lo, count));
    assert(offs.contains(o));
    let j = choose|j: int| 0 <= j < offs.len() && offs[j] == o;
    let m = PatternMatch { rva: (s.1 + o) as u64, virtual_address: (image.base + s.1 + o) as u64 };
    let sm = section_matches(pattern, image.base, bytes, s);
    assert(sm[j] == m);
    lemma_scan_contains(image, pattern, k, j, image.sections@.len() as int);
}

proof fn lemma_scan_contains(image: &ModuleImage, pattern: Seq<Option<u8>>, k: int, j: int, n: int)
    requires
        0 <= k < n <= image.sections@.len(),
        0 <= j < section_matches(pattern, image.base, image.bytes@, image.rows()[k]).len(),
    ensures
        scan_upto(pattern, image.base, image.bytes@, image.rows(), n).contains(
            section_matches(pattern, image.base, image.bytes@, image.rows()[k])[j],
        ),
    decreases n,
{
    let rows = image.rows();
    let bytes = image.bytes@;
    let x = section_matches(pattern, image.base, bytes, rows[k])[j];
    let prev = scan_upto(pattern, image.base, bytes, rows, n - 1);
    let sm = section_matches(pattern, image.base, bytes, rows[n - 1]);
    assert(scan_upto(pattern, image.base, bytes, rows, n) == prev + sm);
    if k < n - 1 {
        lemma_scan_contains(image, pattern, k, j, n - 1);
        let w = choose|w: int| 0 <= w < prev.len() && prev[w] == x;
        assert((prev + sm)[w] == x);
    } else {
        assert((prev + sm)[prev.len() + j] == x);
    }
}

/// Reading: a read at a virtual address yields at most the requested number
/// of bytes, and any bytes it yields come from the file data of the section
/// that holds the address.
pub proof fn law_read_within_request(image: &ModuleImage, va: u64, len: u64)
    requires
        image.read_in_bounds(va, len),
    ensures
        image.spec_read_range(va, len) matches Ok((s, e)) ==> {
            &&& 0 <= s <= e <= image.bytes@.len()
            &&& e - s <= len
            &&& exists|k: int|
                0 <= k < image.sections@.len() && (#[trigger] image.rows()[k]).3 is Some && (image.rows()[k].3->0).0
                    <= s && (s < e ==> e <= (image.rows()[k].3->0).0 + (image.rows()[k].3->0).1)
        },
{
    if image.spec_read_range(va, len) is Ok {
        let rva = (va - image.base) as u64;
        let k = section_holding(image.rows(), rva, 0)->0;
        lemma_section_holding(image.rows(), rva, 0);
        assert(image.rows()[k].3 is Some);
    }
}


/// Whether `idx` places `a` inside `b` as a subsequence: each entry of `a`
/// equals the entry of `b` at its index, and the indices strictly increase.
pub open spec fn embeds<A>(a: Seq<A>, b: Seq<A>, idx: Seq<int>) -> bool {
    &&& idx.len() == a.len()
    &&& forall|i: int| 0 <= i < idx.len() ==> 0 <= #[trigger] idx[i] < b.len() && b[idx[i]] == a[i]
    &&& forall|i: int, j: int| 0 <= i < j < idx.len() ==> #[trigger] idx[i] < #[trigger] idx[j]
}

/// Whether `loose` is `strict` with some fixed bytes turned into wildcards.
pub open spec fn loosens(strict: Seq<Option<u8>>, loose: Seq<Option<u8>>) -> bool {
    &&& strict.len() == loose.len()
    &&& forall|i: int| 0 <= i < loose.len() ==> (#[trigger] loose[i]) is None || loose[i] == strict[i]
}

proof fn lemma_loosened_window(strict: Seq<Option<u8>>, loose: Seq<Option<u8>>, data: Seq<u8>, at: int)
    requires
        loosens(strict, loose),
        window_matches(strict, data, at),
    ensures
        window_matches(loose, data, at),
{
    assert forall|i: int| 0 <= i < loose.len() implies match #[trigger] loose[i] {
        Some(b) => data[at + i] == b,
        None => true,
    } by {
        if loose[i] is Some {
            assert(strict[i] == loose[i]);
        }
    }
}

proof fn lemma_loosened_offsets(strict: Seq<Option<u8>>, loose: Seq<Option<u8>>, bytes: Seq<u8>, lo: int, n: int) -> (idx: Seq<int>)
    requires
        loosens(strict, loose),
    ensures
        embeds(matching_offsets(strict, bytes, lo, n), matching_offsets(loose, bytes, lo, n), idx),
    decreases n,
{
    if n <= 0 {
        seq![]
    } else {
        let prev = lemma_loosened_offsets(strict, loose, bytes, lo, n - 1);
        let a = matching_offsets(strict, bytes, lo, n - 1);
        let b = matching_offsets(loose, bytes, lo, n - 1);
        let a2 = matching_offsets(strict, bytes, lo, n);
        let b2 = matching_offsets(loose, bytes, lo, n);
        if window_matches(loose, bytes, lo + n - 1) {
            assert(b2 == b.push(n - 1));
        } else {
            assert(b2 =~= b);
        }
        if window_matches(strict, bytes, lo + n - 1) {
            lemma_loosened_window(strict, loose, bytes, lo + n - 1);
            assert(a2 == a.push(n - 1));
            let idx = prev.push(b.len() as int);
            assert forall|i: int| 0 <= i < idx.len() implies 0 <= #[trigger] idx[i] < b2.len() && b2[idx[i]]
                == a2[i] by {
                if i < prev.len() {
                    assert(idx[i] == prev[i]);
                    assert(b2[prev[i]] == b[prev[i]]);
                    assert(a2[i] == a[i]);
                }
            }
            assert forall|i: int, j: int| 0 <= i < j < idx.len() implies #[trigger] idx[i] < #[trigger] idx[j] by {
                if j < prev.len() {
                    assert(idx[i] == prev[i] && idx[j] == prev[j]);
                } else {
                    assert(idx[i] == prev[i]);
                }
            }
            idx
        } else {
            assert(a2 =~= a);
            assert forall|i: int| 0 <= i < prev.len() implies 0 <= #[trigger] prev[i] < b2.len() && b2[prev[i]]
                == a2[i] by {
                assert(b2[prev[i]] == b[prev[i]]);
            }
            prev
        }
    }
}

proof fn lemma_embeds_add<A>(a1: Seq<A>, b1: Seq<A>, i1: Seq<int>, a2: Seq<A>, b2: Seq<A>, i2: Seq<int>) -> (idx: Seq<int>)
    requires
        embeds(a1, b1, i1),
        embeds(a2, b2, i2),
    ensures
        embeds(a1 + a2, b1 + b2, idx),
{
    let shifted = i2.map_values(|k: int| k + b1.len());
    let idx = i1 + shifted;
    let a = a1 + a2;
    let b = b1 + b2;
    assert forall|i: int| 0 <= i < idx.len() implies 0 <= #[trigger] idx[i] < b.len() && b[idx[i]] == a[i] by {
        if i < i1.len() {
            assert(idx[i] == i1[i]);
        } else {
            assert(idx[i] == i2[i - i1.len()] + b1.len());
            assert(b[idx[i]] == b2[i2[i - i1.len()]]);
        }
    }
    assert forall|i: int, j: int| 0 <= i < j < idx.len() implies #[trigger] idx[i] < #[trigger] idx[j] by {
        if j < i1.len() {
            assert(idx[i] == i1[i] && idx[j] == i1[j]);
        } else if i < i1.len() {
            assert(idx[i] == i1[i] && idx[j] == i2[j - i1.len()] + b1.len());
        } else {
            assert(idx[i] == i2[i - i1.len()] + b1.len() && idx[j] == i2[j - i1.len()] + b1.len());
        }
    }
    idx
}

proof fn lemma_loosened_scan_upto(
    strict: Seq<Option<u8>>,
    loose: Seq<Option<u8>>,
    base: u64,
    bytes: Seq<u8>,
    secs: Seq<SectionRow>,
    k: int,
) -> (idx: Seq<int>)
    requires
        loosens(strict, loose),
    ensures
        embeds(scan_upto(strict, base, bytes, secs, k), scan_upto(loose, base, bytes, secs, k), idx),
    decreases k,
{
    if k <= 0 || k > secs.len() {
        seq![]
    } else {
        let prev = lemma_loosened_scan_upto(strict, loose, base, bytes, secs, k - 1);
        let s = secs[k - 1];
        let f = |o: int| PatternMatch { rva: (s.1 + o) as u64, virtual_address: (base + s.1 + o) as u64 };
        let here: Seq<int> = match s.3 {
            None => {
                assert(section_matches(strict, base, bytes, s) =~= Seq::<PatternMatch>::empty());
                assert(section_matches(loose, base, bytes, s) =~= Seq::<PatternMatch>::empty());
                seq![]
            },
            Some(range) => {
                let (lo, hi) = file_window(range, bytes.len() as int);
                let n = window_count(strict.len() as int, hi - lo);
                let oi = lemma_loosened_offsets(strict, loose, bytes, lo, n);
                let os = matching_offsets(strict, bytes, lo, n);
                let ol = matching_offsets(loose, bytes, lo, n);
                assert(section_matches(strict, base, bytes, s) == os.map_values(f));
                assert(section_matches(loose, base, bytes, s) == ol.map_values(f));
                assert forall|i: int| 0 <= i < oi.len() implies 0 <= #[trigger] oi[i] < ol.map_values(f).len()
                    && ol.map_values(f)[oi[i]] == os.map_values(f)[i] by {
                    assert(ol[oi[i]] == os[i]);
                }
                oi
            },
        };
        lemma_embeds_add(
            scan_upto(strict, base, bytes, secs, k - 1),
            scan_upto(loose, base, bytes, secs, k - 1),
            prev,
            section_matches(strict, base, bytes, s),
            section_matches(loose, base, bytes, s),
            here,
        )
    }
}

/// Scanning with wildcards: turning some fixed bytes of a signature into
/// wildcards keeps every match it had, in the same order; the result is
/// the index in the looser scan of each match of the stricter one.
pub proof fn law_wildcards_widen_scan(image: &ModuleImage, strict: Seq<Option<u8>>, loose: Seq<Option<u8>>) -> (idx: Seq<int>)
    requires
        loosens(strict, loose),
    ensures
        embeds(image.spec_scan(strict), image.spec_scan(loose), idx),
{
    lemma_loosened_scan_upto(strict, loose, image.base, image.bytes@, image.rows(), image.sections@.len() as int)
}


/// Scanning reports every byte match: wherever, in a section's file data,
/// every byte that the signature fixes equals the file byte at the same
/// distance, the scan lists that place with relative address section
/// address plus offset and virtual address image base plus that.
pub proof fn law_scan_reports_every_byte_match(image: &ModuleImage, pattern: Seq<Option<u8>>, k: int, o: int)
    requires
        0 <= k < image.sections@.len(),
        image.rows()[k].3 is Some,
        ({
            let (lo, hi) = file_window(image.rows()[k].3->0, image.bytes@.len() as int);
            &&& 0 <= o
            &&& o + pattern.len() <= hi - lo
            &&& forall|j: int|
                0 <= j < pattern.len() && (#[trigger] pattern[j]) is Some ==> image.bytes@[lo + o + j]
                    == pattern[j]->0
        }),
    ensures
        image.spec_scan(pattern).contains(
            PatternMatch {
                rva: (image.rows()[k].1 + o) as u64,
                virtual_address: (image.base + image.rows()[k].1 + o) as u64,
            },
        ),
{
    let (lo, hi) = file_window(image.rows()[k].3->0, image.bytes@.len() as int);
    crate::pattern::law_window_is_byte_equality(pattern, image.bytes@, lo + o);
    assert(o < window_count(pattern.len() as int, hi - lo));
    law_scan_complete(image, pattern, k, o);
}


/// Listing sections keeps each field of the section table: the file range
/// (offset first, size second) and the size unchanged, the address moved
/// by the image base, the name kept when it could be decoded, and the
/// section executable exactly when its COFF characteristics hold
/// `IMAGE_SCN_MEM_EXECUTE`.
pub proof fn law_section_info_keeps_fields(base: u64, s: SectionRow)
    requires
        base + s.1 <= u64::MAX,
    ensures
        section_info(base, s).3 == s.3,
        section_info(base, s).2 == s.2,
        section_info(base, s).1 == base + s.1,
        section_info(base, s).4 == (s.4 matches Some(c) && c & 0x2000_0000u32 != 0),
        s.0 matches Some(n) ==> section_info(base, s).0 == n,
        s.0 is None ==> section_info(base, s).0 == seq!['<', 'u', 'n', 'n', 'a', 'm', 'e', 'd', '>'],
{
}

} // verus!
