use vstd::prelude::*;

verus! {

/// The kind of executable a byte image holds, judged by its magic number.
#[derive(Clone, Copy, Debug, PartialEq, Eq, Structural)]
pub enum FormatTag {
    Native,
    Foreign,
    Unknown,
}

/// The ELF magic: 0x7F 'E' 'L' 'F'.
pub open spec fn has_elf_magic(b: Seq<u8>) -> bool {
    b.len() >= 4 && b[0] == 0x7Fu8 && b[1] == 0x45u8 && b[2] == 0x4Cu8 && b[3] == 0x46u8
}

/// The PE/COFF marker: 'M' 'Z'.
pub open spec fn has_mz_magic(b: Seq<u8>) -> bool {
    b.len() >= 2 && b[0] == 0x4Du8 && b[1] == 0x5Au8
}

pub open spec fn format_of(b: Seq<u8>) -> FormatTag {
    if has_elf_magic(b) {
        FormatTag::Native
    } else if has_mz_magic(b) {
        FormatTag::Foreign
    } else {
        FormatTag::Unknown
    }
}

/// Every byte image gets exactly one tag: `Native` exactly when it starts
/// with the ELF magic, `Foreign` exactly when it starts with `MZ`, and
/// `Unknown` otherwise.
pub proof fn lemma_format_cases(b: Seq<u8>)
    ensures
        format_of(b) == FormatTag::Native <==> has_elf_magic(b),
        format_of(b) == FormatTag::Foreign <==> has_mz_magic(b),
        format_of(b) == FormatTag::Unknown <==> !has_elf_magic(b) && !has_mz_magic(b),
{
}

/// Classifies a byte image by its leading magic bytes.
pub fn classify(bytes: &[u8]) -> (r: FormatTag)
    ensures
        r == format_of(bytes@),
{
    if bytes.len() >= 4 && bytes[0] == 0x7F && bytes[1] == 0x45 && bytes[2] == 0x4C && bytes[3] == 0x46 {
        FormatTag::Native
    } else if bytes.len() >= 2 && bytes[0] == 0x4D && bytes[1] == 0x5A {
        FormatTag::Foreign
    } else {
        FormatTag::Unknown
    }
}

/// The name under which a format is reported.
pub open spec fn format_label(t: FormatTag) -> Seq<char> {
    match t {
        FormatTag::Native => "ELF"@,
        FormatTag::Foreign => "PE/COFF (Windows)"@,
        FormatTag::Unknown => "unknown"@,
    }
}

/// The name of the format of a byte image: see `format_label`.
pub fn detect_format(bytes: &[u8]) -> (r: &'static str)
    ensures
        r@ == format_label(format_of(bytes@)),
{
    match classify(bytes) {
        FormatTag::Native => "ELF",
        FormatTag::Foreign => "PE/COFF (Windows)",
        FormatTag::Unknown => "unknown",
    }
}

/// Whether the host can run the image directly: it is an ELF image.
pub fn can_run_natively(bytes: &[u8]) -> (r: bool)
    ensures
        r == has_elf_magic(bytes@),
{
    classify(bytes) == FormatTag::Native
}

} // verus!
