use graphalgorithms_feedback_arc_set::hash_table::HashTable;
use graphalgorithms_feedback_arc_set::metis::{split_numbers, Metis, MetisError};

fn lines(text: &str) -> Vec<Vec<u8>> {
    text.lines().map(|l| l.as_bytes().to_vec()).collect()
}

#[test]
fn parses_header_and_vertex_lines() {
    let mut metis = Metis::new("inline");
    let result = metis.parse(&lines("3 4 0\n2 3\n3\n1 2\n"));
    assert!(result.is_ok());
    assert_eq!(metis.expected_vertex_count(), 3);
    assert_eq!(metis.expected_edge_count(), 4);
    assert_eq!(metis.vertices(), &[1, 2, 3]);
    assert_eq!(metis.edges(), &[(1, 2), (1, 3), (2, 3), (3, 1), (3, 2)]);
}

#[test]
fn comments_do_not_count_as_vertices() {
    let mut metis = Metis::new("inline");
    let result = metis.parse(&lines("% a comment\n2 1\n% another\n2\n\n"));
    assert!(result.is_ok());
    assert_eq!(metis.vertices(), &[1, 2]);
    assert_eq!(metis.edges(), &[(1, 2)]);
    assert_eq!(metis.expected_vertex_count(), 2);
    assert_eq!(metis.expected_edge_count(), 1);
}

#[test]
fn blank_line_is_a_vertex_without_edges() {
    let mut metis = Metis::new("inline");
    assert!(metis.parse(&lines("2 0\n\n\n")).is_ok());
    assert_eq!(metis.vertices(), &[1, 2]);
    assert!(metis.edges().is_empty());
}

#[test]
fn invalid_number_is_rejected() {
    let mut metis = Metis::new("inline");
    assert!(matches!(metis.parse(&lines("2 1\nx\n")), Err(MetisError::InvalidNumber)));
    let mut metis = Metis::new("inline");
    assert!(matches!(metis.parse(&lines("2 1\n4294967296\n")), Err(MetisError::InvalidNumber)));
}

#[test]
fn too_many_vertices_is_rejected() {
    let mut metis = Metis::new("inline");
    assert!(matches!(
        metis.parse_content_line(b"1", u32::MAX),
        Err(MetisError::TooManyVertices)
    ));
}

#[test]
fn split_numbers_reads_words() {
    assert_eq!(split_numbers(b"  12\t7 0 "), Some(vec![12, 7, 0]));
    assert_eq!(split_numbers(b""), Some(vec![]));
    assert_eq!(split_numbers(b"4294967295"), Some(vec![4294967295]));
    assert_eq!(split_numbers(b"1 2a"), None);
}

#[test]
fn parsed_file_gives_the_graph() {
    let mut metis = Metis::new("inline");
    assert!(metis.parse(&lines("3 3\n2\n3\n1\n")).is_ok());
    let graph = HashTable::from_vertices_and_edges(metis.vertices(), metis.edges());
    assert_eq!(graph.order(), 3);
    assert_eq!(graph.edge_count(), 3);
    assert!(graph.is_cyclic());
}
