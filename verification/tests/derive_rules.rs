use parity_scale_codec::{
    check_field_attribute, check_top_attribute, check_variant_attribute, check_variant_indexes,
    decodes_in_place, field_error_text, missing_variant_error_text, named_field_path,
    unnamed_field_path, variant_byte_error_text,
    field_kind, single_kept_field, try_get_variants, variant_index, variant_indices,
    variant_position, CodecMeta, FieldAttrs, FieldKind, VariantAttrs, VariantIndexError,
};

fn plain() -> VariantAttrs {
    VariantAttrs { skip: false, index_attr: None, discriminant: None }
}

fn skipped() -> VariantAttrs {
    VariantAttrs { skip: true, index_attr: None, discriminant: None }
}

fn field(skip: bool, compact: bool, encoded_as: bool) -> FieldAttrs {
    FieldAttrs { skip, compact, encoded_as }
}

#[test]
fn documented_enum_indices() {
    // enum EnumType { #[codec(index = 15)] A, #[codec(skip)] B, C = 3, D }
    let vs = [
        VariantAttrs { skip: false, index_attr: Some(15), discriminant: None },
        skipped(),
        VariantAttrs { skip: false, index_attr: None, discriminant: Some(3) },
        plain(),
    ];
    assert_eq!(try_get_variants(&vs).unwrap(), vec![0, 2, 3]);
    assert_eq!(variant_indices(&vs).unwrap(), vec![15, 3, 2]);
    assert_eq!(check_variant_indexes(&[15, 3, 2]), Ok(()));
}

#[test]
fn skipped_variant_takes_no_index() {
    // enum T { #[codec(skip)] A, B }
    let vs = [skipped(), plain()];
    assert_eq!(variant_indices(&vs).unwrap(), vec![0]);
}

#[test]
fn index_attribute_overrides_discriminant() {
    // enum T { #[codec(index = 0)] A = 1, #[codec(index = 1)] B = 0 }
    let vs = [
        VariantAttrs { skip: false, index_attr: Some(0), discriminant: Some(1) },
        VariantAttrs { skip: false, index_attr: Some(1), discriminant: Some(0) },
    ];
    let ix = variant_indices(&vs).unwrap();
    assert_eq!(ix, vec![0, 1]);
    assert!(check_variant_indexes(&ix).is_ok());
    assert_eq!(variant_index(&vs[0], 7), 0);
    assert_eq!(variant_index(&plain(), 7), 7);
}

#[test]
fn too_many_variants_are_refused() {
    let mut vs = vec![plain(); 257];
    let e = try_get_variants(&vs).unwrap_err();
    assert_eq!(
        e.what(),
        "Currently only enums with at most 256 variants are encodable/decodable."
    );
    vs[0] = skipped();
    assert_eq!(try_get_variants(&vs).unwrap().len(), 256);
    assert_eq!(variant_indices(&vs).unwrap()[255], 255);
}

#[test]
fn invalid_index_is_reported_first() {
    assert_eq!(
        check_variant_indexes(&[1, 1, 300, 256]),
        Err(VariantIndexError::InvalidIndex { position: 2, index: 300 })
    );
}

#[test]
fn first_duplicate_is_reported() {
    assert_eq!(
        check_variant_indexes(&[4, 7, 9, 7, 4]),
        Err(VariantIndexError::Duplicate { first: 0, second: 4, index: 4 })
    );
    assert_eq!(
        check_variant_indexes(&[1, 7, 9, 7, 9]),
        Err(VariantIndexError::Duplicate { first: 1, second: 3, index: 7 })
    );
    assert_eq!(check_variant_indexes(&[]), Ok(()));
    assert_eq!(check_variant_indexes(&[0, 255]), Ok(()));
}

#[test]
fn variant_byte_selects_position() {
    let ix = [15, 3, 2];
    assert_eq!(variant_position(&ix, 3), Some(1));
    assert_eq!(variant_position(&ix, 15), Some(0));
    assert_eq!(variant_position(&ix, 4), None);
    assert_eq!(variant_position(&[300], 44), None);
}

#[test]
fn field_kinds() {
    assert_eq!(field_kind(&field(false, false, false)).unwrap(), FieldKind::Plain);
    assert_eq!(field_kind(&field(false, true, false)).unwrap(), FieldKind::Compact);
    assert_eq!(field_kind(&field(false, false, true)).unwrap(), FieldKind::EncodedAs);
    assert_eq!(field_kind(&field(true, false, false)).unwrap(), FieldKind::Skip);
    assert_eq!(
        field_kind(&field(true, true, false)).unwrap_err().what(),
        "`encoded_as`, `compact` and `skip` can only be used one at a time!"
    );
    assert!(field_kind(&field(false, true, true)).is_err());
}

#[test]
fn single_field_is_found() {
    assert_eq!(single_kept_field(&[field(true, false, false), field(false, true, false)]), Some(1));
    assert_eq!(single_kept_field(&[field(false, false, false), field(false, false, false)]), None);
    assert_eq!(single_kept_field(&[field(true, false, false)]), None);
    assert_eq!(single_kept_field(&[]), None);
}

#[test]
fn attribute_checks() {
    assert!(check_field_attribute(&[CodecMeta::Skip]).is_ok());
    assert!(check_field_attribute(&[CodecMeta::Compact]).is_ok());
    assert!(check_field_attribute(&[CodecMeta::EncodedAs { valid_tokens: true }]).is_ok());
    assert_eq!(
        check_field_attribute(&[CodecMeta::EncodedAs { valid_tokens: false }]).unwrap_err().what(),
        "Invalid token stream"
    );
    assert!(check_field_attribute(&[CodecMeta::Skip, CodecMeta::Compact]).is_err());
    assert!(check_field_attribute(&[CodecMeta::Index { int_literal: true }]).is_err());

    assert!(check_variant_attribute(&[CodecMeta::Skip]).is_ok());
    assert!(check_variant_attribute(&[CodecMeta::Index { int_literal: true }]).is_ok());
    assert!(check_variant_attribute(&[CodecMeta::Index { int_literal: false }]).is_err());
    assert!(check_variant_attribute(&[CodecMeta::Compact]).is_err());
    assert!(check_variant_attribute(&[]).is_err());

    assert!(check_top_attribute(true, &[]).is_ok());
    assert!(check_top_attribute(false, &[CodecMeta::DumbTraitBound]).is_ok());
    assert!(check_top_attribute(false, &[CodecMeta::Skip]).is_err());
    assert!(check_top_attribute(false, &[CodecMeta::DumbTraitBound, CodecMeta::DumbTraitBound])
        .is_err());
}

#[test]
fn transparent_structs_decode_in_place_unless_a_field_is_marked() {
    let plain = FieldAttrs { skip: false, compact: false, encoded_as: false };
    let compact = FieldAttrs { skip: false, compact: true, encoded_as: false };
    assert!(decodes_in_place(true, true, &[plain, plain]));
    assert!(!decodes_in_place(false, true, &[plain]));
    assert!(!decodes_in_place(true, false, &[plain]));
    assert!(!decodes_in_place(true, true, &[]));
    assert!(!decodes_in_place(true, true, &[plain, compact]));
}

#[test]
fn derived_decoders_name_fields_and_variants_in_their_errors() {
    assert_eq!(named_field_path("Example::Second", "value"), "Example::Second::value");
    assert_eq!(unnamed_field_path("Example::Second", 0), "Example::Second.0");
    assert_eq!(unnamed_field_path("Pair", 1234), "Pair.1234");
    assert_eq!(
        field_error_text(&unnamed_field_path("Example::Second", 0)),
        "Could not decode `Example::Second.0`"
    );
    assert_eq!(
        variant_byte_error_text("Example"),
        "Could not decode `Example`, failed to read variant byte"
    );
    assert_eq!(
        missing_variant_error_text("Example"),
        "Could not decode `Example`, variant doesn't exist"
    );
}
