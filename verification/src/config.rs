use vstd::prelude::*;

verus! {

use vstd::string::StringSliceAdditionalSpecFns;

use crate::encode::bytes_eq;

/// The compression formats the splitter understands on its input and
/// output streams.  `Detect` asks the reader to probe the stream's first
/// bytes; it is only meaningful for input.
#[derive(Debug, Copy, Clone, PartialEq, Eq, Structural)]
pub enum CompressionType {
    Gzip,
    Bzip,
    Detect,
    Plain,
}

/// The file-name extension a compression format appends to the files it
/// produces.
pub trait TypeExtension {
    /// Whether the format has a well-defined extension.
    spec fn has_extension(&self) -> bool;

    /// What `extension` returns, as a sequence of characters.
    spec fn extension_view(&self) -> Seq<char>;

    fn extension(&self) -> (r: &'static str)
        requires
            self.has_extension(),
        ensures
            r@ == self.extension_view(),
    ;
}

impl TypeExtension for CompressionType {
    /// `Detect` is a probing instruction, not a format, so it has no
    /// extension.
    open spec fn has_extension(&self) -> bool {
        !(*self is Detect)
    }

    open spec fn extension_view(&self) -> Seq<char> {
        match *self {
            CompressionType::Plain => Seq::empty(),
            CompressionType::Bzip => seq!['.', 'b', 'z'],
            CompressionType::Gzip => seq!['.', 'g', 'z'],
            CompressionType::Detect => Seq::empty(),
        }
    }

    fn extension(&self) -> (r: &'static str) {
        proof {
            reveal_strlit("");
            reveal_strlit(".bz");
            reveal_strlit(".gz");
        }
        match self {
            CompressionType::Plain => "",
            CompressionType::Bzip => ".bz",
            CompressionType::Gzip => ".gz",
            CompressionType::Detect => vstd::pervasive::unreached(),
        }
    }
}

/// The format implied by a stream that begins with the two bytes `b0 b1`:
/// a known magic number selects its format, anything else is taken as
/// uncompressed data.
pub open spec fn spec_detect(b0: u8, b1: u8) -> CompressionType {
    if b0 == 0x1f && b1 == 0x8b {
        CompressionType::Gzip
    } else if b0 == 66 && b1 == 90 {
        CompressionType::Bzip
    } else {
        CompressionType::Plain
    }
}

/// Resolves `Detect` from the first two bytes of the input stream.  The
/// caller reads the bytes ahead of time and rewinds the stream itself, so
/// the probe cannot disturb the read position.
pub fn detect_compression(b0: u8, b1: u8) -> (t: CompressionType)
    ensures
        t == spec_detect(b0, b1),
{
    if b0 == 0x1f && b1 == 0x8b {
        CompressionType::Gzip
    } else if b0 == 66 && b1 == 90 {
        CompressionType::Bzip
    } else {
        CompressionType::Plain
    }
}

/// An ASCII upper-case letter mapped to lower case; any other byte is
/// unchanged.
pub open spec fn spec_lower_byte(b: u8) -> u8 {
    if 65 <= b && b <= 90 {
        (b + 32) as u8
    } else {
        b
    }
}

/// A byte string with its ASCII letters mapped to lower case.
pub open spec fn spec_lower_bytes(s: Seq<u8>) -> Seq<u8> {
    s.map_values(|b: u8| spec_lower_byte(b))
}

/// The compression format that a command-line spelling names, compared
/// without regard to ASCII letter case: the empty string means
/// uncompressed, and `g`/`gzip`, `b`/`bzip`, `d`/`detect` select their
/// formats.  Anything else is unknown.
pub open spec fn spec_compression_of(s: Seq<u8>) -> Option<CompressionType> {
    let l = spec_lower_bytes(s);
    if l == Seq::<u8>::empty() {
        Some(CompressionType::Plain)
    } else if l == seq![103u8] || l == seq![103u8, 122u8, 105u8, 112u8] {
        Some(CompressionType::Gzip)
    } else if l == seq![98u8] || l == seq![98u8, 122u8, 105u8, 112u8] {
        Some(CompressionType::Bzip)
    } else if l == seq![100u8] || l == seq![100u8, 101u8, 116u8, 101u8, 99u8, 116u8] {
        Some(CompressionType::Detect)
    } else {
        Option::None
    }
}

/// Lower-cases the ASCII letters of `s`.
fn lower_ascii(s: &[u8]) -> (r: Vec<u8>)
    ensures
        r@ == spec_lower_bytes(s@),
{
    let mut r: Vec<u8> = Vec::new();
    let mut i: usize = 0;
    while i < s.len()
        invariant
            i <= s@.len(),
            r@ == spec_lower_bytes(s@.take(i as int)),
        decreases s@.len() - i,
    {
        let b = s[i];
        if 65 <= b && b <= 90 {
            r.push(b + 32);
        } else {
            r.push(b);
        }
        proof {
            assert(s@.take(i + 1 as int).map_values(|b: u8| spec_lower_byte(b)) =~= s@.take(
                i as int,
            ).map_values(|b: u8| spec_lower_byte(b)).push(spec_lower_byte(s@[i as int])));
        }
        i = i + 1;
    }
    proof {
        assert(s@.take(s@.len() as int) =~= s@);
    }
    r
}

impl CompressionType {
    /// Parses the command-line spelling of a compression format.  The
    /// accepted spellings are listed at `spec_compression_of`; anything
    /// else is reported back as an error.
    pub fn from_str(s: &str) -> (r: Result<CompressionType, String>)
        ensures
            match spec_compression_of(s.spec_bytes()) {
                Some(t) => r == Ok::<CompressionType, String>(t),
                Option::None => r is Err,
            },
    {
        let lower = lower_ascii(s.as_bytes());
        let l = lower.as_slice();
        let empty: &[u8] = &[];
        let g_short: &[u8] = &[103u8];
        let g_long: &[u8] = &[103u8, 122u8, 105u8, 112u8];
        let b_short: &[u8] = &[98u8];
        let b_long: &[u8] = &[98u8, 122u8, 105u8, 112u8];
        let d_short: &[u8] = &[100u8];
        let d_long: &[u8] = &[100u8, 101u8, 116u8, 101u8, 99u8, 116u8];
        proof {
            assert(empty@ =~= Seq::<u8>::empty());
            assert(g_short@ =~= seq![103u8]);
            assert(g_long@ =~= seq![103u8, 122u8, 105u8, 112u8]);
            assert(b_short@ =~= seq![98u8]);
            assert(b_long@ =~= seq![98u8, 122u8, 105u8, 112u8]);
            assert(d_short@ =~= seq![100u8]);
            assert(d_long@ =~= seq![100u8, 101u8, 116u8, 101u8, 99u8, 116u8]);
        }
        if bytes_eq(l, empty) {
            Ok(CompressionType::Plain)
        } else if bytes_eq(l, g_short) || bytes_eq(l, g_long) {
            Ok(CompressionType::Gzip)
        } else if bytes_eq(l, b_short) || bytes_eq(l, b_long) {
            Ok(CompressionType::Bzip)
        } else if bytes_eq(l, d_short) || bytes_eq(l, d_long) {
            Ok(CompressionType::Detect)
        } else {
            Err(
                String::from_str(
                    "Unknown compression format: 'gzip', 'bzip', 'detect', are supported",
                ),
            )
        }
    }
}

/// The validated configuration the split driver consumes.  Parsing the
/// command line, and any defaulting, happen outside the library; by the
/// time a `Config` exists every field holds its final value.
#[derive(Debug)]
pub struct Config {
    /// The zero-based column whose equal consecutive values must stay in
    /// one output file.  The input must already be sorted by this column.
    pub group_column: Option<usize>,
    /// The maximum number of rows per output file.  When grouping, a file
    /// may hold more to keep a group together.
    pub max_rows: usize,
    /// Read from standard input instead of a file.
    pub stdin: bool,
    /// How the input stream is compressed.
    pub input_compression: CompressionType,
    /// How each output file is to be compressed.
    pub output_compression: CompressionType,
    /// A command to execute each time an output file is finished.
    pub trigger: Option<String>,
    /// Treat the first row as a header to inject into each output file.
    pub headers: bool,
    /// The length of the numeric suffix in generated file names.
    pub suffix_len: usize,
    /// Whether to write through a background writer.
    pub bg_writer: bool,
    /// The input file to process.
    pub file: String,
    /// The output directory.
    pub out_path: String,
}

} // verus!
