use markdown_preview::parser::parse;
use markdown_preview::renderer::render;

const FENCED: &[u8] = b"# A\n\nPara\n\n- x\n```\nl1\nl2\n```\nAfter";

#[test]
fn offset_inside_fence_maps_to_its_first_row() {
    let doc = parse(FENCED);
    let (nodes, map) = render(&doc, FENCED);
    let rows: Vec<(usize, usize, usize)> = nodes.iter().map(|n| (n.start, n.row, n.rows)).collect();
    assert_eq!(rows, vec![(0, 0, 1), (5, 1, 1), (11, 2, 1), (15, 3, 4), (29, 7, 1)]);
    assert_eq!(map.offset_to_row(20), 3);
    assert_eq!(map.offset_to_row(27), 3);
    let o = map.row_to_offset(5);
    assert!(15 <= o && o <= 28);
    assert_eq!(o, 15);
}

#[test]
fn round_trip_on_every_node() {
    let doc = parse(FENCED);
    let (nodes, map) = render(&doc, FENCED);
    assert_eq!(map.len(), nodes.len());
    for n in &nodes {
        assert_eq!(map.offset_to_row(n.start), n.row);
        assert_eq!(map.row_to_offset(n.row), n.start);
    }
}

#[test]
fn lookups_clamp_at_the_boundaries() {
    let text = b"\n\nfirst\n\nsecond";
    let doc = parse(text);
    let (_, map) = render(&doc, text);
    assert_eq!(map.offset_to_row(0), 0);
    assert_eq!(map.offset_to_row(1000), 1);
    assert_eq!(map.row_to_offset(1000), 9);
    assert_eq!(map.row_to_offset(0), 2);
}

#[test]
fn empty_document_maps_to_zero() {
    let doc = parse(b"");
    let (nodes, map) = render(&doc, b"");
    assert!(nodes.is_empty());
    assert_eq!(map.offset_to_row(5), 0);
    assert_eq!(map.row_to_offset(5), 0);
}

#[test]
fn table_rows_and_list_items_take_a_row_each() {
    let text = b"a|b\n-|-\nc|d\ne|f\n\n- 1\n- 2";
    let doc = parse(text);
    let (nodes, _) = render(&doc, text);
    let rows: Vec<(usize, usize)> = nodes.iter().map(|n| (n.start, n.row)).collect();
    assert_eq!(rows, vec![(0, 0), (8, 1), (12, 2), (17, 3), (21, 4)]);
}
