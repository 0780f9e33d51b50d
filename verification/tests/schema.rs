use lakesoul_io::file_name::{default_files, generate_part_file, part_file};
use lakesoul_io::schema::{
    augmented_schema, index_of, lsh_column_name, lsh_targets, writer_projection, LshStep,
};
use lakesoul_io::writer::WriterError;

fn names(fields: &[&str]) -> Vec<String> {
    fields.iter().map(|f| f.to_string()).collect()
}

#[test]
fn index_of_finds_the_first_column_of_a_name() {
    let schema = names(&["id", "a", "b", "a"]);
    assert_eq!(index_of(&schema, &"id".to_string()), Some(0));
    assert_eq!(index_of(&schema, &"a".to_string()), Some(1));
    assert_eq!(index_of(&schema, &"b".to_string()), Some(2));
    assert_eq!(index_of(&schema, &"c".to_string()), None);
    assert_eq!(index_of(&schema, &"".to_string()), None);
    assert_eq!(index_of(&vec![], &"a".to_string()), None);
}

#[test]
fn projection_leaves_out_auxiliary_sort_columns() {
    let schema = names(&["col", "col1", "col2"]);
    assert_eq!(writer_projection(&schema, &names(&["col2"])), Ok(vec![0, 1]));
    assert_eq!(writer_projection(&schema, &names(&["col1", "col"])), Ok(vec![2]));
    assert_eq!(writer_projection(&schema, &names(&["col", "col1", "col2"])), Ok(vec![]));
}

#[test]
fn projection_without_auxiliary_columns_keeps_the_schema() {
    assert_eq!(writer_projection(&names(&["a", "b", "a"]), &vec![]), Ok(vec![0, 1, 2]));
    assert_eq!(writer_projection(&vec![], &vec![]), Ok(vec![]));
}

#[test]
fn projection_takes_the_first_column_of_a_repeated_name() {
    assert_eq!(writer_projection(&names(&["a", "b", "a", "c"]), &names(&["b"])), Ok(vec![0, 0, 3]));
}

#[test]
fn projection_fails_on_an_unknown_auxiliary_column() {
    let schema = names(&["col", "col1"]);
    assert_eq!(
        writer_projection(&schema, &names(&["col1", "nope", "neither"])),
        Err(WriterError::UnknownColumn(1))
    );
    assert_eq!(writer_projection(&vec![], &names(&["x"])), Err(WriterError::UnknownColumn(0)));
}

#[test]
fn lsh_column_names() {
    assert_eq!(lsh_column_name(&"embedding".to_string()), "embedding_LSH");
    assert_eq!(lsh_column_name(&"".to_string()), "_LSH");
}

#[test]
fn augmented_schema_appends_missing_hash_columns() {
    assert_eq!(
        augmented_schema(names(&["id", "v", "w"]), &names(&["v", "w"])),
        names(&["id", "v", "w", "v_LSH", "w_LSH"])
    );
    assert_eq!(
        augmented_schema(names(&["id", "v_LSH", "v"]), &names(&["v", "v", "x"])),
        names(&["id", "v_LSH", "v", "x_LSH"])
    );
    assert_eq!(augmented_schema(names(&["id"]), &vec![]), names(&["id"]));
    assert_eq!(augmented_schema(vec![], &names(&["a", "a"])), names(&["a_LSH"]));
}

#[test]
fn lsh_targets_pair_embeddings_with_their_hash_columns() {
    let schema = names(&["id", "v", "v_LSH", "w", "x_LSH"]);
    assert_eq!(
        lsh_targets(&schema, &names(&["w", "missing", "v", "x"])),
        vec![
            LshStep { field: 0, source: 3, target: None },
            LshStep { field: 2, source: 1, target: Some(2) },
        ]
    );
    assert_eq!(lsh_targets(&schema, &vec![]), vec![]);
}

#[test]
fn part_file_names() {
    let token = "AbCdEfGh01234567".to_string();
    assert_eq!(
        part_file(&"s3://bucket/table".to_string(), &token, 3),
        "s3://bucket/table/part-AbCdEfGh01234567_0003.parquet"
    );
    assert_eq!(part_file(&"p".to_string(), &token, 0), "p/part-AbCdEfGh01234567_0000.parquet");
    assert_eq!(part_file(&"p".to_string(), &token, 9999), "p/part-AbCdEfGh01234567_9999.parquet");
    assert_eq!(part_file(&"p".to_string(), &token, 10000), "p/part-AbCdEfGh01234567_10000.parquet");
    assert_eq!(part_file(&"".to_string(), &"".to_string(), 42), "/part-_0042.parquet");
    assert_eq!(
        part_file(&"p".to_string(), &"t".to_string(), usize::MAX),
        format!("p/part-t_{}.parquet", usize::MAX)
    );
}

fn token_of(name: &str, prefix: &str, bucket: &str) -> String {
    let head = format!("{}/part-", prefix);
    let tail = format!("_{}.parquet", bucket);
    assert!(name.starts_with(&head), "{}", name);
    assert!(name.ends_with(&tail), "{}", name);
    name[head.len()..name.len() - tail.len()].to_string()
}

#[test]
fn generated_part_files_carry_a_token_of_sixteen_letters_and_digits() {
    let prefix = "dir/table".to_string();
    let first = generate_part_file(&prefix, 7);
    let second = generate_part_file(&prefix, 7);
    for name in [&first, &second] {
        let token = token_of(name, "dir/table", "0007");
        assert_eq!(token.len(), 16);
        assert!(token.chars().all(|c| c.is_ascii_alphanumeric()));
    }
    assert_ne!(first, second);
}

#[test]
fn files_that_were_given_are_kept() {
    let given = names(&["a.parquet", "b.parquet"]);
    assert_eq!(default_files(given.clone(), &"prefix".to_string(), 1), given);
    assert_eq!(default_files(vec![], &"".to_string(), 1), Vec::<String>::new());
    let made = default_files(vec![], &"prefix".to_string(), 12);
    assert_eq!(made.len(), 1);
    assert_eq!(token_of(&made[0], "prefix", "0012").len(), 16);
}
