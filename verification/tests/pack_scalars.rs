use proof_of_sql::committable_column::{CommittableColumn, PoSQLTimeUnit, PoSQLTimeZone, Precision};
use proof_of_sql::pack_scalars::{
    get_bit_size, get_bit_table_and_scalars_for_packed_msm, get_byte_size,
    get_max_committable_column_length, get_num_of_sub_commits_per_full_commit,
    get_output_bit_table, get_repeated_bit_table, BYTE_SIZE,
};

#[test]
fn we_can_get_correct_data_sizes() {
    let committable_columns = [
        CommittableColumn::SmallInt(vec![1, 2, 3]),
        CommittableColumn::Int(vec![1, 2, 3]),
        CommittableColumn::BigInt(vec![1, 2, 3]),
        CommittableColumn::Int128(vec![1, 2, 3]),
        CommittableColumn::Decimal75(
            Precision::new(1).unwrap(),
            0,
            vec![[1, 2, 3, 4], [5, 6, 7, 8]],
        ),
        CommittableColumn::Scalar(vec![[1, 2, 3, 4], [5, 6, 7, 8]]),
        CommittableColumn::VarChar(vec![[1, 2, 3, 4], [5, 6, 7, 8]]),
        CommittableColumn::Boolean(vec![true, false, true]),
        CommittableColumn::TimestampTZ(PoSQLTimeUnit::Second, PoSQLTimeZone::Utc, vec![1, 2, 3]),
    ];

    let expected_bit_sizes = [16, 32, 64, 128, 64 * 4, 64 * 4, 64 * 4, 8, 64];
    let expected_byte_size = expected_bit_sizes
        .iter()
        .map(|&x| x / BYTE_SIZE)
        .collect::<Vec<usize>>();

    for (i, column) in committable_columns.iter().enumerate() {
        let bit_size = get_bit_size(column);
        let byte_size = get_byte_size(column);

        assert_eq!(bit_size, expected_bit_sizes[i]);
        assert_eq!(byte_size, expected_byte_size[i]);
    }
}

#[test]
fn we_can_get_max_committable_column_length_of_the_same_type() {
    let committable_columns = [
        CommittableColumn::Scalar(vec![[1, 2, 3, 4], [5, 6, 7, 8]]),
        CommittableColumn::Scalar(vec![[1, 2, 3, 4]]),
    ];

    let max_column_length = get_max_committable_column_length(&committable_columns);
    assert_eq!(max_column_length, 2);
}

#[test]
fn we_can_get_max_committable_column_length_of_different_types() {
    let committable_columns = [
        CommittableColumn::SmallInt(vec![1, 2, 3]),
        CommittableColumn::Int(vec![1, 2, 3]),
        CommittableColumn::BigInt(vec![1, 2, 3]),
        CommittableColumn::Int128(vec![1, 2, 3, 4, 5, 6]),
        CommittableColumn::Decimal75(
            Precision::new(1).unwrap(),
            0,
            vec![[1, 2, 3, 4], [5, 6, 7, 8]],
        ),
        CommittableColumn::Scalar(vec![[1, 2, 3, 4], [5, 6, 7, 8]]),
        CommittableColumn::VarChar(vec![[1, 2, 3, 4], [5, 6, 7, 8]]),
        CommittableColumn::Boolean(vec![true, false, true]),
        CommittableColumn::TimestampTZ(PoSQLTimeUnit::Second, PoSQLTimeZone::Utc, vec![1, 2, 3]),
    ];

    let max_column_length = get_max_committable_column_length(&committable_columns);
    assert_eq!(max_column_length, 6);
}

#[test]
fn we_can_get_a_bit_table() {
    let committable_columns = [
        CommittableColumn::SmallInt(vec![1, 2, 3]),
        CommittableColumn::Int(vec![1, 2, 3]),
        CommittableColumn::BigInt(vec![1, 2, 3]),
        CommittableColumn::Int128(vec![1, 2, 3]),
        CommittableColumn::Decimal75(
            Precision::new(1).unwrap(),
            0,
            vec![[1, 2, 3, 4], [5, 6, 7, 8]],
        ),
        CommittableColumn::Scalar(vec![[1, 2, 3, 4], [5, 6, 7, 8]]),
        CommittableColumn::VarChar(vec![[1, 2, 3, 4], [5, 6, 7, 8]]),
        CommittableColumn::Boolean(vec![true, false, true]),
        CommittableColumn::TimestampTZ(PoSQLTimeUnit::Second, PoSQLTimeZone::Utc, vec![1, 2, 3]),
    ];

    let bit_table = get_output_bit_table(&committable_columns);
    let expected = [16, 32, 64, 128, 64 * 4, 64 * 4, 64 * 4, 8, 64];
    assert_eq!(bit_table, expected);
}

#[test]
fn we_can_get_a_repeated_bit_table() {
    let committable_columns = [
        CommittableColumn::SmallInt(vec![1, 2, 3]),
        CommittableColumn::Int(vec![1, 2, 3]),
        CommittableColumn::BigInt(vec![1, 2, 3]),
        CommittableColumn::Int128(vec![1, 2, 3]),
        CommittableColumn::Decimal75(
            Precision::new(1).unwrap(),
            0,
            vec![[1, 2, 3, 4], [5, 6, 7, 8]],
        ),
        CommittableColumn::Scalar(vec![[1, 2, 3, 4], [5, 6, 7, 8]]),
        CommittableColumn::VarChar(vec![[1, 2, 3, 4], [5, 6, 7, 8]]),
        CommittableColumn::Boolean(vec![true, false, true]),
        CommittableColumn::TimestampTZ(PoSQLTimeUnit::Second, PoSQLTimeZone::Utc, vec![1, 2, 3]),
    ];

    let bit_table = get_output_bit_table(&committable_columns);
    let repeated_bit_table = get_repeated_bit_table(&bit_table, 3);
    let expected = [
        16,
        16,
        16,
        32,
        32,
        32,
        64,
        64,
        64,
        128,
        128,
        128,
        64 * 4,
        64 * 4,
        64 * 4,
        64 * 4,
        64 * 4,
        64 * 4,
        64 * 4,
        64 * 4,
        64 * 4,
        8,
        8,
        8,
        64,
        64,
        64,
    ];
    assert_eq!(repeated_bit_table, expected);
}

#[test]
fn we_can_get_num_of_columns_with_more_generators_than_columns() {
    let committable_columns = [
        CommittableColumn::Scalar(vec![[1, 2, 3, 4], [5, 6, 7, 8]]),
        CommittableColumn::Scalar(vec![[1, 2, 3, 4]]),
    ];

    let offset = 0;
    let num_columns = 1 << 2;
    let num_sub_commits_per_full_commit =
        get_num_of_sub_commits_per_full_commit(&committable_columns, offset, num_columns);
    assert_eq!(num_sub_commits_per_full_commit, 1);
}

#[test]
fn we_can_get_num_of_columns_with_more_generators_than_columns_and_offset() {
    let committable_columns = [
        CommittableColumn::Scalar(vec![[1, 2, 3, 4], [5, 6, 7, 8]]),
        CommittableColumn::Scalar(vec![[1, 2, 3, 4]]),
    ];

    let offset = 5;
    let num_columns = 1 << 2;
    let num_sub_commits_per_full_commit =
        get_num_of_sub_commits_per_full_commit(&committable_columns, offset, num_columns);
    assert_eq!(num_sub_commits_per_full_commit, 2);
}

#[test]
fn we_can_get_num_of_columns_with_more_columns_than_generators() {
    let committable_columns = [
        CommittableColumn::SmallInt(vec![
            1, 2, 3, 4, 5, 6, 7, 8, 9, 10, 11, 12, 13, 14, 15, 16, 17, 18, 19, 20,
        ]),
        CommittableColumn::Int(vec![1, 2, 3, 4, 5, 6, 7, 8, 9, 10, 11, 12, 13, 14, 15]),
        CommittableColumn::SmallInt(vec![1, 2, 3, 4, 5, 6, 7, 8, 9, 10]),
    ];

    let offset = 0;
    let num_columns = 1 << 2;
    let num_sub_commits_per_full_commit =
        get_num_of_sub_commits_per_full_commit(&committable_columns, offset, num_columns);
    assert_eq!(num_sub_commits_per_full_commit, 5);
}

#[test]
fn we_can_get_num_of_columns_with_more_columns_than_generators_and_offset() {
    let committable_columns = [
        CommittableColumn::SmallInt(vec![
            1, 2, 3, 4, 5, 6, 7, 8, 9, 10, 11, 12, 13, 14, 15, 16, 17, 18, 19, 20,
        ]),
        CommittableColumn::Int(vec![1, 2, 3, 4, 5, 6, 7, 8, 9, 10, 11, 12, 13, 14, 15]),
        CommittableColumn::SmallInt(vec![1, 2, 3, 4, 5, 6, 7, 8, 9, 10]),
    ];

    let offset = 1;
    let num_columns = 1 << 2;
    let num_sub_commits_per_full_commit =
        get_num_of_sub_commits_per_full_commit(&committable_columns, offset, num_columns);
    assert_eq!(num_sub_commits_per_full_commit, 6);
}

#[test]
fn we_can_create_a_mixed_packed_scalar() {
    let committable_columns = [
        CommittableColumn::SmallInt(vec![
            0, 1, 2, 3, 4, 5, 6, 7, 8, 9, 10, 11, 12, 13, 14, 15, 16, 17, 18,
        ]),
        CommittableColumn::Int(vec![
            19, 20, 21, 22, 23, 24, 25, 26, 27, 28, 29, 30, 31, 32, 33, 34, 35, 36, 37,
        ]),
        CommittableColumn::SmallInt(vec![
            38, 39, 40, 41, 42, 43, 44, 45, 46, 47, 48, 49, 50, 51, 52, 53, 54, 55, 56,
        ]),
    ];

    let num_columns = 1 << 2;
    let offset = 0;

    let num_sub_commits_per_full_commit =
        get_num_of_sub_commits_per_full_commit(&committable_columns, offset, num_columns);
    assert_eq!(num_sub_commits_per_full_commit, 5);

    let (extended_bit_table, packed_scalar) = get_bit_table_and_scalars_for_packed_msm(
        &committable_columns,
        offset,
        num_columns,
        num_sub_commits_per_full_commit,
    );

    let expected_bit_table = [
        16, 16, 16, 16, 16, 32, 32, 32, 32, 32, 16, 16, 16, 16, 16, 8, 8, 8, 8, 8, 8, 8, 8, 8, 8,
        8, 8, 8, 8, 8,
    ];

    let expected_scalar = [
        0, 128, 4, 128, 8, 128, 12, 128, 16, 128, 19, 0, 0, 128, 23, 0, 0, 128, 27, 0, 0, 128, 31,
        0, 0, 128, 35, 0, 0, 128, 38, 128, 42, 128, 46, 128, 50, 128, 54, 128, 1, 1, 1, 1, 1, 1, 1,
        1, 1, 1, 1, 1, 1, 1, 1, 1, 128, 5, 128, 9, 128, 13, 128, 17, 128, 20, 0, 0, 128, 24, 0, 0,
        128, 28, 0, 0, 128, 32, 0, 0, 128, 36, 0, 0, 128, 39, 128, 43, 128, 47, 128, 51, 128, 55,
        128, 1, 1, 1, 1, 1, 1, 1, 1, 1, 1, 1, 1, 1, 1, 1, 2, 128, 6, 128, 10, 128, 14, 128, 18,
        128, 21, 0, 0, 128, 25, 0, 0, 128, 29, 0, 0, 128, 33, 0, 0, 128, 37, 0, 0, 128, 40, 128,
        44, 128, 48, 128, 52, 128, 56, 128, 1, 1, 1, 1, 1, 1, 1, 1, 1, 1, 1, 1, 1, 1, 1, 3, 128, 7,
        128, 11, 128, 15, 128, 0, 0, 22, 0, 0, 128, 26, 0, 0, 128, 30, 0, 0, 128, 34, 0, 0, 128, 0,
        0, 0, 0, 41, 128, 45, 128, 49, 128, 53, 128, 0, 0, 1, 1, 1, 1, 0, 1, 1, 1, 1, 0, 1, 1, 1,
        1, 0,
    ];

    assert_eq!(extended_bit_table, expected_bit_table);
    assert_eq!(packed_scalar, expected_scalar);
}

#[test]
fn we_can_create_mixed_packed_scalar_with_offset() {
    let committable_columns = [
        CommittableColumn::SmallInt(vec![0, 1, 2, 3]),
        CommittableColumn::Int(vec![4, 5, 6, 7]),
        CommittableColumn::SmallInt(vec![8, 9, 10, 11]),
    ];

    let num_columns = 1 << 2;
    let offset = 5;

    let num_sub_commits_per_full_commit =
        get_num_of_sub_commits_per_full_commit(&committable_columns, offset, num_columns);
    assert_eq!(num_sub_commits_per_full_commit, 3);

    let (repeated_bit_table, packed_scalar) = get_bit_table_and_scalars_for_packed_msm(
        &committable_columns,
        offset,
        num_columns,
        num_sub_commits_per_full_commit,
    );

    let expected_bit_table = [
        16, 16, 16, 32, 32, 32, 16, 16, 16, 8, 8, 8, 8, 8, 8, 8, 8, 8,
    ];

    let expected_scalar = [
        0, 0, 0, 0, 3, 128, 0, 0, 0, 0, 0, 0, 0, 0, 7, 0, 0, 128, 0, 0, 0, 0, 11, 128, 0, 0, 1, 0,
        0, 1, 0, 0, 1, 0, 0, 0, 128, 0, 0, 0, 0, 0, 0, 4, 0, 0, 128, 0, 0, 0, 0, 0, 0, 8, 128, 0,
        0, 0, 1, 0, 0, 1, 0, 0, 1, 0, 0, 0, 1, 128, 0, 0, 0, 0, 0, 0, 5, 0, 0, 128, 0, 0, 0, 0, 0,
        0, 9, 128, 0, 0, 0, 1, 0, 0, 1, 0, 0, 1, 0, 0, 0, 2, 128, 0, 0, 0, 0, 0, 0, 6, 0, 0, 128,
        0, 0, 0, 0, 0, 0, 10, 128, 0, 0, 0, 1, 0, 0, 1, 0, 0, 1, 0,
    ];

    assert_eq!(repeated_bit_table, expected_bit_table);
    assert_eq!(packed_scalar, expected_scalar);
}

#[test]
fn we_can_pack_empty_scalars() {
    let committable_columns = [];

    let (bit_table, packed_scalar) =
        get_bit_table_and_scalars_for_packed_msm(&committable_columns, 0, 1, 0);

    assert!(bit_table.is_empty());
    assert!(packed_scalar.is_empty());
}

#[test]
fn we_can_pack_scalars_with_one_full_row() {
    let committable_columns = [
        CommittableColumn::BigInt(vec![1, 2]),
        CommittableColumn::BigInt(vec![3, 4]),
    ];

    let offset = 0;
    let num_columns = 1 << 1;

    let num_sub_commits_per_full_commit =
        get_num_of_sub_commits_per_full_commit(&committable_columns, offset, num_columns);
    assert_eq!(num_sub_commits_per_full_commit, 1);

    let (repeated_bit_table, packed_scalar) = get_bit_table_and_scalars_for_packed_msm(
        &committable_columns,
        offset,
        num_columns,
        num_sub_commits_per_full_commit,
    );

    let expected_scalar = [
        1, 0, 0, 0, 0, 0, 0, 128, 3, 0, 0, 0, 0, 0, 0, 128, 1, 1, 2, 0, 0, 0, 0, 0, 0, 128, 4, 0,
        0, 0, 0, 0, 0, 128, 1, 1,
    ];

    let expected_bit_table = [64, 64, 8, 8];

    assert_eq!(packed_scalar, expected_scalar);
    assert_eq!(repeated_bit_table, expected_bit_table);
}

#[test]
fn we_can_pack_scalars_with_more_than_one_row() {
    let committable_columns = [
        CommittableColumn::BigInt(vec![1, 2]),
        CommittableColumn::BigInt(vec![3, 4]),
    ];

    let offset = 0;
    let num_columns = 1 << 0;

    let num_sub_commits_per_full_commit =
        get_num_of_sub_commits_per_full_commit(&committable_columns, offset, num_columns);
    assert_eq!(num_sub_commits_per_full_commit, 2);

    let (repeated_bit_table, packed_scalar) = get_bit_table_and_scalars_for_packed_msm(
        &committable_columns,
        offset,
        num_columns,
        num_sub_commits_per_full_commit,
    );

    let expected_scalar = [
        1, 0, 0, 0, 0, 0, 0, 128, 2, 0, 0, 0, 0, 0, 0, 128, 3, 0, 0, 0, 0, 0, 0, 128, 4, 0, 0, 0,
        0, 0, 0, 128, 1, 1, 1, 1,
    ];

    let expected_bit_table = [64, 64, 64, 64, 8, 8, 8, 8];

    assert_eq!(packed_scalar, expected_scalar);
    assert_eq!(repeated_bit_table, expected_bit_table);
}

#[test]
fn we_can_pack_scalars_with_one_full_row_with_offset() {
    let committable_columns = [
        CommittableColumn::BigInt(vec![1, 2]),
        CommittableColumn::BigInt(vec![3, 4]),
    ];

    let offset = 1;
    let num_columns = 1 << 1;

    let num_sub_commits_per_full_commit =
        get_num_of_sub_commits_per_full_commit(&committable_columns, offset, num_columns);
    assert_eq!(num_sub_commits_per_full_commit, 2);

    let (repeated_bit_table, packed_scalar) = get_bit_table_and_scalars_for_packed_msm(
        &committable_columns,
        offset,
        num_columns,
        num_sub_commits_per_full_commit,
    );

    let expected_scalar = [
        0, 0, 0, 0, 0, 0, 0, 0, 2, 0, 0, 0, 0, 0, 0, 128, 0, 0, 0, 0, 0, 0, 0, 0, 4, 0, 0, 0, 0,
        0, 0, 128, 0, 1, 0, 1, 1, 0, 0, 0, 0, 0, 0, 128, 0, 0, 0, 0, 0, 0, 0, 0, 3, 0, 0, 0, 0, 0,
        0, 128, 0, 0, 0, 0, 0, 0, 0, 0, 1, 0, 1, 0,
    ];

    let expected_bit_table = [64, 64, 64, 64, 8, 8, 8, 8];

    assert_eq!(packed_scalar, expected_scalar);
    assert_eq!(repeated_bit_table, expected_bit_table);
}

#[test]
fn we_can_pack_scalars_with_more_than_one_row_with_offset() {
    let committable_columns = [
        CommittableColumn::BigInt(vec![1, 2]),
        CommittableColumn::BigInt(vec![3, 4]),
    ];

    let offset = 1;
    let num_columns = 1 << 0;

    let num_sub_commits_per_full_commit =
        get_num_of_sub_commits_per_full_commit(&committable_columns, offset, num_columns);
    assert_eq!(num_sub_commits_per_full_commit, 3);

    let (repeated_bit_table, packed_scalar) = get_bit_table_and_scalars_for_packed_msm(
        &committable_columns,
        offset,
        num_columns,
        num_sub_commits_per_full_commit,
    );

    let expected_scalar = [
        0, 0, 0, 0, 0, 0, 0, 0, 1, 0, 0, 0, 0, 0, 0, 128, 2, 0, 0, 0, 0, 0, 0, 128, 0, 0, 0, 0, 0,
        0, 0, 0, 3, 0, 0, 0, 0, 0, 0, 128, 4, 0, 0, 0, 0, 0, 0, 128, 0, 1, 1, 0, 1, 1,
    ];

    let expected_bit_table = [64, 64, 64, 64, 64, 64, 8, 8, 8, 8, 8, 8];

    assert_eq!(packed_scalar, expected_scalar);
    assert_eq!(repeated_bit_table, expected_bit_table);
}

#[test]
fn we_can_add_offsets() {
    let committable_columns = [
        CommittableColumn::SmallInt(vec![0, 1, 2, 3, 4, 5]),
        CommittableColumn::Int(vec![6, 7, 8, 9]),
        CommittableColumn::Scalar(vec![[10, 0, 0, 0], [11, 0, 0, 0], [12, 0, 0, 0]]),
    ];

    let offset = 0;
    let num_columns = 3;

    let num_sub_commits_per_full_commit =
        get_num_of_sub_commits_per_full_commit(&committable_columns, offset, num_columns);
    assert_eq!(num_sub_commits_per_full_commit, 2);

    let (repeated_bit_table, packed_scalar) = get_bit_table_and_scalars_for_packed_msm(
        &committable_columns,
        offset,
        num_columns,
        num_sub_commits_per_full_commit,
    );

    let expected_scalar = [
        0, 128, 3, 128, 6, 0, 0, 128, 9, 0, 0, 128, 10, 0, 0, 0, 0, 0, 0, 0, 0, 0, 0, 0, 0, 0,
        0, 0, 0, 0, 0, 0, 0, 0, 0, 0, 0, 0, 0, 0, 0, 0, 0, 0, 0, 0, 0, 0, 0, 0, 0, 0, 0, 0, 0,
        0, 0, 0, 0, 0, 0, 0, 0, 0, 0, 0, 0, 0, 0, 0, 0, 0, 0, 0, 0, 0, 1, 1, 1, 1, 0, 0, 1,
        128, 4, 128, 7, 0, 0, 128, 0, 0, 0, 0, 11, 0, 0, 0, 0, 0, 0, 0, 0, 0, 0, 0, 0, 0, 0, 0,
        0, 0, 0, 0, 0, 0, 0, 0, 0, 0, 0, 0, 0, 0, 0, 0, 0, 0, 0, 0, 0, 0, 0, 0, 0, 0, 0, 0, 0,
        0, 0, 0, 0, 0, 0, 0, 0, 0, 0, 0, 0, 0, 0, 0, 0, 0, 0, 0, 1, 1, 1, 0, 0, 0, 2, 128, 5,
        128, 8, 0, 0, 128, 0, 0, 0, 0, 12, 0, 0, 0, 0, 0, 0, 0, 0, 0, 0, 0, 0, 0, 0, 0, 0, 0,
        0, 0, 0, 0, 0, 0, 0, 0, 0, 0, 0, 0, 0, 0, 0, 0, 0, 0, 0, 0, 0, 0, 0, 0, 0, 0, 0, 0, 0,
        0, 0, 0, 0, 0, 0, 0, 0, 0, 0, 0, 0, 0, 0, 0, 0, 0, 1, 1, 1, 0, 0, 0
    ];

    let expected_bit_table = [16, 16, 32, 32, 64 * 4, 64 * 4, 8, 8, 8, 8, 8, 8];

    assert_eq!(packed_scalar, expected_scalar);
    assert_eq!(repeated_bit_table, expected_bit_table);
}
