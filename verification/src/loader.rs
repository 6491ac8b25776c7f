//! The resources of a compiled system dictionary, read from what was read of its files. The
//! character definitions, the connection costs and the unknown-word dictionary are parsed
//! by `lindera_core`, which owns their formats.

use crate::codec::le_u16;
use crate::user_dict::PrefixDict;
use lindera_core::character_definition::CharacterDefinitions;
use lindera_core::connection::ConnectionCostMatrix;
use lindera_core::error::LinderaError;
use lindera_core::unknown_dictionary::UnknownDictionary;
use vstd::prelude::*;
use vstd::slice::slice_to_vec;

verus! {

/// The file of the character definitions.
pub const CHAR_DEF_FILE: &'static str = "char_def.bin";

/// The file of the connection costs.
pub const MATRIX_FILE: &'static str = "matrix.mtx";

/// The file of the trie.
pub const TRIE_FILE: &'static str = "dict.da";

/// The file of the word entries that the trie's values point into.
pub const ENTRIES_FILE: &'static str = "dict.vals";

/// The file of the unknown-word dictionary.
pub const UNKNOWN_FILE: &'static str = "unk.bin";

/// The file of the offsets of the detail records.
pub const WORDS_IDX_FILE: &'static str = "dict.wordsidx";

/// The file of the detail records.
pub const WORDS_FILE: &'static str = "dict.words";

/// The number of bytes before the costs in the file of the connection costs: the two sizes
/// of the matrix, two bytes each.
pub const MATRIX_HEADER_LEN: usize = 4;

/// The character definitions of `lindera_core`, carried as they are.
#[verifier::external_type_specification]
#[verifier::external_body]
pub struct ExCharacterDefinitions(CharacterDefinitions);

/// The connection costs of `lindera_core`. Of what a matrix holds this library speaks
/// through `matrix_costs` and `matrix_backward_size`.
#[verifier::external_type_specification]
#[verifier::external_body]
pub struct ExConnectionCostMatrix(ConnectionCostMatrix);

/// The unknown-word dictionary of `lindera_core`, carried as it is.
#[verifier::external_type_specification]
#[verifier::external_body]
pub struct ExUnknownDictionary(UnknownDictionary);

/// The error of `lindera_core`, handed on as it is.
#[verifier::external_type_specification]
#[verifier::external_body]
pub struct ExLinderaError(LinderaError);

/// A system dictionary in memory.
pub struct Dictionary {
    pub dict: PrefixDict,
    pub cost_matrix: ConnectionCostMatrix,
    pub char_definitions: CharacterDefinitions,
    pub unknown_dictionary: UnknownDictionary,
    /// The offset of each word's detail record, four bytes each.
    pub words_idx_data: Vec<u8>,
    /// The detail records, laid end to end.
    pub words_data: Vec<u8>,
}

/// Whether `lindera_core` reads character definitions from these bytes.
pub uninterp spec fn holds_char_def(data: Seq<u8>) -> bool;

/// Whether `lindera_core` reads an unknown-word dictionary from these bytes.
pub uninterp spec fn holds_unknown_dict(data: Seq<u8>) -> bool;

/// `CharacterDefinitions::load`: reads the character definitions from the bytes of their
/// file. Whether it reads any depends on the bytes alone.
#[verifier::external_body]
fn load_char_def(data: &[u8]) -> (table: Result<CharacterDefinitions, LinderaError>)
    ensures
        table is Ok == holds_char_def(data@),
{
    CharacterDefinitions::load(data)
}

/// The bytes of the costs that a matrix holds, two for each cost: its field `costs_data`.
pub uninterp spec fn matrix_costs(matrix: ConnectionCostMatrix) -> Seq<u8>;

/// The number of connection classes on the right side of a matrix: its field
/// `backward_size`.
pub uninterp spec fn matrix_backward_size(matrix: ConnectionCostMatrix) -> u32;

/// The backward size that the header of the connection costs gives: its third and fourth
/// byte, the low one first, read as a signed number of 16 bits and widened to 32.
pub open spec fn header_backward_size(data: Seq<u8>) -> u32 {
    let size = le_u16(data.subrange(2, 4));
    if size >= 0x8000 {
        (size + 0xffff_0000) as u32
    } else {
        size as u32
    }
}

/// `ConnectionCostMatrix::load`: reads the connection costs from the bytes of their file.
/// The matrix holds the bytes after the header as its costs, and the backward size that
/// the header gives. It stops the program on fewer bytes than the header has.
#[verifier::external_body]
fn load_connection(data: &[u8]) -> (matrix: ConnectionCostMatrix)
    requires
        data@.len() >= MATRIX_HEADER_LEN,
    ensures
        matrix_costs(matrix) == data@.skip(MATRIX_HEADER_LEN as int),
        matrix_backward_size(matrix) == header_backward_size(data@),
{
    ConnectionCostMatrix::load(data)
}

/// `UnknownDictionary::load`: reads the unknown-word dictionary from the bytes of its file.
/// Whether it reads any depends on the bytes alone.
#[verifier::external_body]
fn load_unknown_dict(data: &[u8]) -> (dict: Result<UnknownDictionary, LinderaError>)
    ensures
        dict is Ok == holds_unknown_dict(data@),
{
    UnknownDictionary::load(data)
}

/// The files of a system dictionary, in the order in which they are read.
#[derive(Clone, Copy, Debug, PartialEq, Eq, Structural)]
pub enum File {
    Trie,
    Entries,
    Matrix,
    CharDef,
    Unknown,
    WordsIdx,
    Words,
}

/// Why a system dictionary was not read: the file that was not read or not parsed, and the
/// error of the read or of the parser, as it was given.
pub struct LoadError {
    pub file: File,
    pub error: LinderaError,
}

/// What was read of a file: its bytes, or the error of the read.
pub type Read = Result<Vec<u8>, LinderaError>;

/// The character definitions that the bytes of their file hold, or the error of their
/// parser.
pub fn char_def(data: &[u8]) -> (table: Result<CharacterDefinitions, LinderaError>)
    ensures
        table is Ok == holds_char_def(data@),
{
    load_char_def(data)
}

/// The connection costs that the bytes of their file hold.
pub fn connection(data: &[u8]) -> (matrix: ConnectionCostMatrix)
    requires
        data@.len() >= MATRIX_HEADER_LEN,
    ensures
        matrix_costs(matrix) == data@.skip(MATRIX_HEADER_LEN as int),
        matrix_backward_size(matrix) == header_backward_size(data@),
{
    load_connection(data)
}

/// The trie of a system dictionary with its word entries, from the bytes of their two files.
pub fn prefix_dict(da_data: &[u8], vals_data: &[u8]) -> (dict: PrefixDict)
    ensures
        dict.da@ == da_data@,
        dict.vals_data@ == vals_data@,
        dict.is_system,
{
    PrefixDict { da: slice_to_vec(da_data), vals_data: slice_to_vec(vals_data), is_system: true }
}

/// The unknown-word dictionary that the bytes of its file hold, or the error of its parser.
pub fn unknown_dict(data: &[u8]) -> (dict: Result<UnknownDictionary, LinderaError>)
    ensures
        dict is Ok == holds_unknown_dict(data@),
{
    load_unknown_dict(data)
}

/// The first file that stops the reading of a system dictionary, if one does. The files
/// are taken in turn: the trie, the word entries, the connection costs, the character
/// definitions, the unknown-word dictionary, the offsets, the detail records. A file stops
/// the reading where it was not read, and the character definitions and the unknown-word
/// dictionary also where their parser does not take their bytes.
pub open spec fn first_failure(
    da_data: Read,
    vals_data: Read,
    matrix_data: Read,
    char_def_data: Read,
    unknown_data: Read,
    words_idx_data: Read,
    words_data: Read,
) -> Option<File> {
    if da_data is Err {
        Some(File::Trie)
    } else if vals_data is Err {
        Some(File::Entries)
    } else if matrix_data is Err {
        Some(File::Matrix)
    } else if char_def_data is Err || !holds_char_def(char_def_data->Ok_0@) {
        Some(File::CharDef)
    } else if unknown_data is Err || !holds_unknown_dict(unknown_data->Ok_0@) {
        Some(File::Unknown)
    } else if words_idx_data is Err {
        Some(File::WordsIdx)
    } else if words_data is Err {
        Some(File::Words)
    } else {
        None
    }
}

/// What was read or parsed, or its error as it was given, with the file it is of.
pub fn in_file<T>(file: File, result: Result<T, LinderaError>) -> (located: Result<T, LoadError>)
    ensures
        match result {
            Ok(value) => located == Ok::<T, LoadError>(value),
            Err(error) => located == Err::<T, LoadError>(LoadError { file, error }),
        },
{
    match result {
        Ok(value) => Ok(value),
        Err(error) => Err(LoadError { file, error }),
    }
}

/// Reads a system dictionary from what was read of its seven files. The files are taken in
/// turn, and the first that was not read, or not parsed, stops the reading: its error comes
/// back as it was given, through `in_file`. The trie, its word entries, the offsets and the
/// detail records are kept as they are; the other three are parsed.
pub fn load_dictionary(
    da_data: Read,
    vals_data: Read,
    matrix_data: Read,
    char_def_data: Read,
    unknown_data: Read,
    words_idx_data: Read,
    words_data: Read,
) -> (dictionary: Result<Dictionary, LoadError>)
    requires
        da_data is Ok && vals_data is Ok && matrix_data is Ok ==> matrix_data->Ok_0@.len()
            >= MATRIX_HEADER_LEN,
    ensures
        match dictionary {
            Ok(dictionary) => {
                &&& first_failure(
                    da_data,
                    vals_data,
                    matrix_data,
                    char_def_data,
                    unknown_data,
                    words_idx_data,
                    words_data,
                ) is None
                &&& dictionary.dict.da@ == da_data->Ok_0@
                &&& dictionary.dict.vals_data@ == vals_data->Ok_0@
                &&& dictionary.dict.is_system
                &&& matrix_costs(dictionary.cost_matrix) == matrix_data->Ok_0@.skip(
                    MATRIX_HEADER_LEN as int,
                )
                &&& matrix_backward_size(dictionary.cost_matrix) == header_backward_size(
                    matrix_data->Ok_0@,
                )
                &&& dictionary.words_idx_data@ == words_idx_data->Ok_0@
                &&& dictionary.words_data@ == words_data->Ok_0@
            },
            Err(e) => {
                &&& first_failure(
                    da_data,
                    vals_data,
                    matrix_data,
                    char_def_data,
                    unknown_data,
                    words_idx_data,
                    words_data,
                ) == Some(e.file)
                &&& e.file == File::Trie ==> e.error == da_data->Err_0
                &&& e.file == File::Entries ==> e.error == vals_data->Err_0
                &&& e.file == File::Matrix ==> e.error == matrix_data->Err_0
                &&& e.file == File::CharDef && char_def_data is Err ==> e.error
                    == char_def_data->Err_0
                &&& e.file == File::Unknown && unknown_data is Err ==> e.error
                    == unknown_data->Err_0
                &&& e.file == File::WordsIdx ==> e.error == words_idx_data->Err_0
                &&& e.file == File::Words ==> e.error == words_data->Err_0
            },
        },
{
    let da = in_file(File::Trie, da_data)?;
    let vals = in_file(File::Entries, vals_data)?;
    let dict = prefix_dict(da.as_slice(), vals.as_slice());
    let matrix = in_file(File::Matrix, matrix_data)?;
    let cost_matrix = connection(matrix.as_slice());
    let char_def_bytes = in_file(File::CharDef, char_def_data)?;
    let char_definitions = in_file(File::CharDef, char_def(char_def_bytes.as_slice()))?;
    let unknown_bytes = in_file(File::Unknown, unknown_data)?;
    let unknown_dictionary = in_file(File::Unknown, unknown_dict(unknown_bytes.as_slice()))?;
    let words_idx_data = in_file(File::WordsIdx, words_idx_data)?;
    let words_data = in_file(File::Words, words_data)?;
    Ok(
        Dictionary {
            dict,
            cost_matrix,
            char_definitions,
            unknown_dictionary,
            words_idx_data,
            words_data,
        },
    )
}

} // verus!
