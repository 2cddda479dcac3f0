//! The supported formats and how they are told apart.

use vstd::prelude::*;

use crate::bytes::{bytes_equal, get_range};
use crate::errors::{invalid_format, MediaParserError};
use crate::strings::equal_ignoring_case;

verus! {

/// A supported format.
#[derive(Debug, Clone, Copy, PartialEq, Eq, Structural)]
pub enum Format {
    Mp4,
    Mp3,
}

/// What a format is told by: bytes at a place of its header, or the extension
/// of a file name.
#[derive(Debug)]
pub struct FormatSignature {
    pub name: &'static str,
    pub magic: Vec<u8>,
    pub magic_offset: usize,
    pub extensions: Vec<&'static str>,
}

impl Format {
    /// The name of a format.
    pub open spec fn name_text(self) -> Seq<char> {
        match self {
            Format::Mp4 => "MP4/M4A/MOV"@,
            Format::Mp3 => "MP3"@,
        }
    }

    /// The bytes that a format is told by, and their place.
    pub open spec fn mark(self) -> (Seq<u8>, int) {
        match self {
            Format::Mp4 => (crate::bytes::code('f', 't', 'y', 'p'), 4),
            Format::Mp3 => (seq!['I' as u8, 'D' as u8, '3' as u8], 0),
        }
    }

    /// The extensions of file names of a format.
    pub open spec fn extension_texts(self) -> Seq<Seq<char>> {
        match self {
            Format::Mp4 => seq!["mp4"@, "m4a"@, "mov"@],
            Format::Mp3 => seq!["mp3"@],
        }
    }

    /// Whether a header has the bytes of this format.
    pub open spec fn has_mark(self, header: Seq<u8>) -> bool {
        let (magic, offset) = self.mark();
        offset + magic.len() <= header.len() && header.subrange(offset, offset + magic.len())
            == magic
    }

    /// Whether an extension is one of this format, in upper or lower case.
    pub open spec fn has_extension(self, extension: Seq<char>) -> bool {
        exists|i: int|
            0 <= i < self.extension_texts().len() && crate::strings::lower_text(
                #[trigger] self.extension_texts()[i],
            ) == crate::strings::lower_text(extension)
    }

    /// What this format is told by.
    pub fn signature(&self) -> (result: FormatSignature)
        ensures
            result.name@ == self.name_text(),
            result.magic@ == self.mark().0,
            result.magic_offset == self.mark().1,
            extension_views(result.extensions@) == self.extension_texts(),
    {
        match self {
            Format::Mp4 => {
                let mut magic: Vec<u8> = Vec::new();
                magic.push('f' as u8);
                magic.push('t' as u8);
                magic.push('y' as u8);
                magic.push('p' as u8);
                let mut extensions: Vec<&'static str> = Vec::new();
                extensions.push("mp4");
                extensions.push("m4a");
                extensions.push("mov");
                assert(magic@ =~= self.mark().0);
                assert(extension_views(extensions@) =~= self.extension_texts());
                FormatSignature { name: "MP4/M4A/MOV", magic, magic_offset: 4, extensions }
            },
            Format::Mp3 => {
                let mut magic: Vec<u8> = Vec::new();
                magic.push('I' as u8);
                magic.push('D' as u8);
                magic.push('3' as u8);
                let mut extensions: Vec<&'static str> = Vec::new();
                extensions.push("mp3");
                assert(magic@ =~= self.mark().0);
                assert(extension_views(extensions@) =~= self.extension_texts());
                FormatSignature { name: "MP3", magic, magic_offset: 0, extensions }
            },
        }
    }

    /// Whether a header has the bytes of this format.
    pub fn matches_bytes(&self, header: &[u8]) -> (result: bool)
        ensures
            result == self.has_mark(header@),
    {
        let signature = self.signature();
        match get_range(
            header,
            signature.magic_offset,
            signature.magic_offset + signature.magic.len(),
        ) {
            Some(found) => bytes_equal(found, signature.magic.as_slice()),
            None => false,
        }
    }

    /// Whether an extension is one of this format, in upper or lower case.
    pub fn matches_extension(&self, extension: &str) -> (result: bool)
        ensures
            result == self.has_extension(extension@),
    {
        let signature = self.signature();
        let ghost all = self.extension_texts();
        let mut index: usize = 0;
        while index < signature.extensions.len()
            invariant
                index <= signature.extensions@.len(),
                all == self.extension_texts(),
                all == extension_views(signature.extensions@),
                forall|i: int|
                    0 <= i < index ==> crate::strings::lower_text(#[trigger] all[i])
                        != crate::strings::lower_text(extension@),
            decreases signature.extensions@.len() - index,
        {
            assert(all[index as int] == signature.extensions@[index as int]@);
            if equal_ignoring_case(signature.extensions[index], extension) {
                return true;
            }
            index += 1;
        }
        false
    }
}

pub open spec fn extension_views(extensions: Seq<&'static str>) -> Seq<Seq<char>> {
    Seq::new(extensions.len(), |i: int| extensions[i]@)
}

/// The format that a header belongs to; MP4 is tried first.
pub open spec fn format_of(header: Seq<u8>) -> Option<Format> {
    if Format::Mp4.has_mark(header) {
        Some(Format::Mp4)
    } else if Format::Mp3.has_mark(header) {
        Some(Format::Mp3)
    } else {
        None
    }
}

/// The format that a file extension belongs to.
pub open spec fn format_of_extension(extension: Seq<char>) -> Option<Format> {
    if Format::Mp4.has_extension(extension) {
        Some(Format::Mp4)
    } else if Format::Mp3.has_extension(extension) {
        Some(Format::Mp3)
    } else {
        None
    }
}

/// Detects the format from the first bytes of a file.
pub fn detect_format(header: &[u8]) -> (result: Option<Format>)
    ensures
        result == format_of(header@),
{
    if Format::Mp4.matches_bytes(header) {
        Some(Format::Mp4)
    } else if Format::Mp3.matches_bytes(header) {
        Some(Format::Mp3)
    } else {
        None
    }
}

/// Detects the format from a file extension.
pub fn detect_format_by_extension(ext: &str) -> (result: Option<Format>)
    ensures
        result == format_of_extension(ext@),
{
    if Format::Mp4.matches_extension(ext) {
        Some(Format::Mp4)
    } else if Format::Mp3.matches_extension(ext) {
        Some(Format::Mp3)
    } else {
        None
    }
}

/// The format of a file with this header, or the error that there is none.
pub fn require_format(header: &[u8]) -> (result: Result<Format, MediaParserError>)
    ensures
        match result {
            Ok(format) => format_of(header@) == Some(format),
            Err(error) => format_of(header@) is None && error@
                == crate::errors::ErrorView::InvalidFormat(
                "Could not detect format from file header"@,
            ),
        },
{
    match detect_format(header) {
        Some(format) => Ok(format),
        None => Err(invalid_format("Could not detect format from file header")),
    }
}

/// What each of the supported formats is told by.
pub fn supported_formats() -> (result: Vec<FormatSignature>)
    ensures
        result@.len() == 2,
        result@[0].name@ == Format::Mp4.name_text(),
        result@[0].magic@ == Format::Mp4.mark().0,
        result@[0].magic_offset == Format::Mp4.mark().1,
        extension_views(result@[0].extensions@) == Format::Mp4.extension_texts(),
        result@[1].name@ == Format::Mp3.name_text(),
        result@[1].magic@ == Format::Mp3.mark().0,
        result@[1].magic_offset == Format::Mp3.mark().1,
        extension_views(result@[1].extensions@) == Format::Mp3.extension_texts(),
{
    let mut signatures: Vec<FormatSignature> = Vec::new();
    signatures.push(Format::Mp4.signature());
    signatures.push(Format::Mp3.signature());
    signatures
}

/// Whether files with this extension are supported.
pub fn is_supported(ext: &str) -> (result: bool)
    ensures
        result == (format_of_extension(ext@) is Some),
{
    detect_format_by_extension(ext).is_some()
}

/// What the format of an extension is told by, if it is supported.
pub fn get_format_info(ext: &str) -> (result: Option<FormatSignature>)
    ensures
        match (result, format_of_extension(ext@)) {
            (Some(signature), Some(format)) => {
                &&& signature.name@ == format.name_text()
                &&& signature.magic@ == format.mark().0
                &&& signature.magic_offset == format.mark().1
                &&& extension_views(signature.extensions@) == format.extension_texts()
            },
            (None, None) => true,
            _ => false,
        },
{
    match detect_format_by_extension(ext) {
        Some(format) => Some(format.signature()),
        None => None,
    }
}

/// A file is an MP4 file just where `ftyp` stands behind its first four bytes, and
/// else an MP3 file just where it starts with `ID3`.
pub proof fn lemma_first_bytes_tell_the_format(header: Seq<u8>)
    ensures
        ({
            let mp4 = header.len() >= 8 && header[4] == 'f' as u8 && header[5] == 't' as u8
                && header[6] == 'y' as u8 && header[7] == 'p' as u8;
            let mp3 = header.len() >= 3 && header[0] == 'I' as u8 && header[1] == 'D' as u8
                && header[2] == '3' as u8;
            &&& mp4 <==> format_of(header) == Some(Format::Mp4)
            &&& mp3 && !mp4 <==> format_of(header) == Some(Format::Mp3)
        }),
{
    let ftyp = crate::bytes::code('f', 't', 'y', 'p');
    let id3 = seq!['I' as u8, 'D' as u8, '3' as u8];
    if header.len() >= 8 {
        let found = header.subrange(4, 8);
        assert(found[0] == header[4] && found[1] == header[5] && found[2] == header[6] && found[3]
            == header[7]);
        assert(found[0] == ftyp[0] && found[1] == ftyp[1] && found[2] == ftyp[2] && found[3]
            == ftyp[3] ==> found =~= ftyp);
        assert(found == ftyp ==> found[0] == 'f' as u8 && found[1] == 't' as u8 && found[2]
            == 'y' as u8 && found[3] == 'p' as u8);
    }
    if header.len() >= 3 {
        let found = header.subrange(0, 3);
        assert(found[0] == header[0] && found[1] == header[1] && found[2] == header[2]);
        assert(found[0] == id3[0] && found[1] == id3[1] && found[2] == id3[2] ==> found =~= id3);
        assert(found == id3 ==> found[0] == 'I' as u8 && found[1] == 'D' as u8 && found[2]
            == '3' as u8);
    }
}

/// Extensions tell the format in upper and lower case: `mp4`, `m4a` and `mov` that
/// of MP4 files, `mp3` that of MP3 files, and no other tells any.
pub proof fn lemma_extensions_tell_the_format(extension: Seq<char>)
    ensures
        ({
            let lower = crate::strings::lower_text(extension);
            &&& lower == "mp4"@ || lower == "m4a"@ || lower == "mov"@ <==> format_of_extension(
                extension,
            ) == Some(Format::Mp4)
            &&& lower == "mp3"@ <==> format_of_extension(extension) == Some(Format::Mp3)
        }),
{
    reveal_strlit("mp4");
    reveal_strlit("m4a");
    reveal_strlit("mov");
    reveal_strlit("mp3");
    let lower = crate::strings::lower_text(extension);
    assert(crate::strings::lower_text("mp4"@) =~= "mp4"@);
    assert(crate::strings::lower_text("m4a"@) =~= "m4a"@);
    assert(crate::strings::lower_text("mov"@) =~= "mov"@);
    assert(crate::strings::lower_text("mp3"@) =~= "mp3"@);
    let mp4 = Format::Mp4.extension_texts();
    let mp3 = Format::Mp3.extension_texts();
    assert(mp4.len() == 3 && mp4[0] == "mp4"@ && mp4[1] == "m4a"@ && mp4[2] == "mov"@);
    assert(mp3.len() == 1 && mp3[0] == "mp3"@);
    assert("mp3"@[2] == '3' && "mp4"@[2] == '4' && "m4a"@[2] == 'a' && "mov"@[2] == 'v');
}

} // verus!
