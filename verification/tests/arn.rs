use dsql_auth::cluster_id_from_arn;

#[test]
fn identifier_is_the_part_after_the_last_slash() {
    assert_eq!(
        cluster_id_from_arn("arn:aws:dsql:us-east-1:111122223333:cluster/aaabbbcccddd"),
        "aaabbbcccddd",
    );
    assert_eq!(cluster_id_from_arn("a/b/c"), "c");
}

#[test]
fn name_without_slash_is_returned_whole() {
    assert_eq!(cluster_id_from_arn("aaabbbcccddd"), "aaabbbcccddd");
    assert_eq!(cluster_id_from_arn(""), "");
}

#[test]
fn trailing_slash_yields_an_empty_identifier() {
    assert_eq!(cluster_id_from_arn("arn:aws:dsql:cluster/"), "");
}
