//! SCALE: a compact, non-self-describing binary codec, with machine-checked contracts.
//!
//! Every value that encodes has a model of its encoding (`Encode::spec_encode`); every type that
//! decodes has a model of what it reads (`Decode::spec_parse`). Encoding writes exactly the
//! model, decoding reads exactly the encoding of what it returns, and the laws of `DecodeLaws`
//! tie the two together: what is read back from an encoding is the value that was written.
#![allow(unused_imports)]

mod endian;
mod error;
mod io;
mod compact_spec;
mod codec;
mod compact;
mod sequence;
mod composite;
mod counted_input;
mod memory_limit;
mod encode_like;
mod encode_append;
mod bit_vec;
mod mem_tracking;
pub mod naming;
mod derive_rules;
mod decode_all;
mod depth_limit;
mod tuples;
pub mod btree;
mod max_encoded_len;

pub use bit_vec::{
    bit_sequence_encoding, bit_sequence_parse, decode_bit_sequence, encode_bit_slice,
    lemma_bit_sequence_roundtrip, required_elements, spec_required_elements, BitElement,
    BitSequence, ARCH32BIT_BITSLICE_MAX_BITS,
};
pub use max_encoded_len::{
    lemma_array_bound_reached, lemma_box_bound_reached, lemma_compact_bounds_reached,
    lemma_fixed_width_bounds, lemma_option_bound_reached, lemma_phantom_bound,
    lemma_result_bound_reached, lemma_saturated_add, lemma_tuple1_bound_reached,
    lemma_tuple2_bound_reached, lemma_tuple3_bound_reached, MaxEncodedLen,
};
pub use codec::{
    decodes_to, deeper, depth_fits, fixed_parse, lemma_read_back, lemma_split_encodings,
    limits_kept, mem_alignment, saturated, size_hint_of, twos, Codec, Decode, DecodeLaws, Encode,
    EncodeAsRef,
};
pub use compact::{
    lemma_compact_as_u128, lemma_compact_as_u16, lemma_compact_as_u32, lemma_compact_as_u64,
    lemma_compact_as_u8,
    compact_parse_max, Compact, CompactAs, CompactLen, CompactRef, CompactValue, HasCompact,
};
pub use compact_spec::{
    compact_encodable, compact_encoding, compact_mode_len, compact_parse,
    lemma_compact_encoding_injective, lemma_compact_parse_canonical, lemma_compact_parse_encoding,
};
pub use composite::{
    lemma_pointer_depth, lemma_tagged_depth,
    arc_value, cow_chars, cow_items, cow_value, pair_parse, rc_value, tagged_parse, Duration,
    WrapperTypeDecode, WrapperTypeEncode,
    OptionBool, A_BILLION,
};
pub use counted_input::{lemma_counter_sums_reads, saturating_add_u32, total_len, Count, CountedInput};
pub use decode_all::{DecodeAll, DECODE_ALL_ERR_MSG};
pub use depth_limit::{DecodeLimit, DepthTrackingInput, DEPTH_LIMIT_ERR_MSG};
pub use derive_rules::{
    check_field_attribute, check_top_attribute, check_variant_attribute, check_variant_indexes,
    decimal, decodes_in_place, digit_char, field_error_text, missing_variant_error_text,
    named_field_path, unnamed_field_path, variant_byte_error_text,
    field_attr_count, field_kind, first_duplicate, first_out_of_range, indices_distinct,
    indices_in_range, kept_field_count, kept_positions, lemma_kept_positions,
    lemma_variant_position_unique, single_kept_field, spec_variant_index, spec_variant_indices,
    try_get_variants, variant_index, variant_indices, variant_position, CodecMeta, FieldAttrs,
    FieldKind, VariantAttrs, VariantIndexError, MAX_VARIANTS,
};
pub use encode_append::{
    append_result, lemma_append_like_items, lemma_append_to_encoding, lemma_append_to_nothing,
    EncodeAppend,
};
pub use encode_like::{
    lemma_pointers_encode_like_value, lemma_slice_encodes_like_vec, lemma_str_encodes_like_string,
    lemma_vec_deque_encodes_like_vec, EncodeLike, FullCodec, FullEncode,
};
pub use endian::{le_bytes, le_value, min_bytes, pow256};
pub use error::{io_error, io_error_description, lemma_error_from_str, Error, IoErrorKind};
pub use io::{reads_fully, Input, Output};
pub use mem_tracking::DecodeWithMemTracking;
pub use memory_limit::{
    aligned_size, lemma_mem_limit_from, next_power_of_two, power_of_two_from, DecodeMemLimit,
    MemAlignment, MemLimit,
    MemTrackingInput, MEM_LIMIT_ERR_MSG,
};
pub use btree::{
    lemma_ordered_depth,
    ascending, ascending_at, ascending_items, key_before, keys_ascending_at, keys_of, lawful_order,
    map_entries, map_of, map_parse, set_parse,
};
pub use sequence::{
    lemma_sequence_depth,
    all_encodable, compact_encode_len_to, decode_vec_with_len, items_depth, items_encoding,
    items_mem, items_parse, vec_alloc_size,
    lemma_items_injective, lemma_len_of_encoding, lemma_prefixed_items_injective,
    lemma_string_encoding_injective, lemma_string_parse_encoding, prefix_count,
    prefixed_items_encoding, prefixed_items_parse, same_items, string_encoding, string_parse,
    DecodeLength, MAX_PREALLOCATION,
};
