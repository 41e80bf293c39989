//! Maps a directory tree into nested entries, labelling each file with a
//! human-readable size.

mod digits;
mod error;
mod size;
mod tree;

pub use digits::{dec_text, digit_char, fixed_digits, pow10, strip_zeros};
pub use error::TreeError;
pub use size::{
    file_size_to_string,
    frac_places,
    label_value,
    lemma_label_monotone,
    lemma_one_kb_label,
    lemma_unit_never_beyond_pb,
    lemma_zero_bytes_label,
    pow1024,
    decimal_text,
    ends_with,
    scaled_rounded,
    size_label,
    unit_from,
    unit_name,
    unit_of,
    LAST_UNIT,
};
pub use tree::{
    dir_children,
    dir_tree,
    entry_of,
    extension_of,
    file_extension,
    file_info,
    has_file,
    kept,
    last_index_of,
    tree_wf,
    FileInfo,
    Listed,
    Tree,
    TreeType,
};
