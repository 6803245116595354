use mermaid_ascii::graph::{ArrowTip, Direction, EdgeStyle, Shape};
use mermaid_ascii::parser::{parse, split_br};
use mermaid_ascii::style::Color;

#[test]
fn parse_simple_edge() {
    let g = parse("graph TD\nA-->B").unwrap();
    assert_eq!(g.nodes.len(), 2);
    assert_eq!(g.edges.len(), 1);
    assert_eq!(g.edges[0].from, 0);
    assert_eq!(g.edges[0].to, 1);
    assert_eq!(g.edges[0].style, EdgeStyle::Normal);
    assert_eq!(g.edges[0].tip_fwd, ArrowTip::Arrow);
    assert!(!g.edges[0].tip_back);
    assert_eq!(g.edges[0].length, 1);
    assert_eq!(g.dir, Direction::TD);
    assert_eq!(g.nodes[0].name, "A");
    assert_eq!(g.nodes[0].label_lines, vec!["A".to_string()]);
    assert_eq!(g.nodes[1].name, "B");
}

#[test]
fn parse_directions() {
    assert_eq!(parse("flowchart LR\nA --> B").unwrap().dir, Direction::LR);
    assert_eq!(parse("graph rl\nA").unwrap().dir, Direction::RL);
    assert_eq!(parse("graph BT\nA").unwrap().dir, Direction::BT);
    assert_eq!(parse("graph XY\nA").unwrap().dir, Direction::TD);
}

#[test]
fn parse_no_nodes() {
    assert_eq!(parse("graph TD\n%% only a comment\n").unwrap_err(), "no nodes found");
    assert_eq!(parse("").unwrap_err(), "no nodes found");
}

#[test]
fn parse_missing_close() {
    assert_eq!(parse("graph TD\nA[foo").unwrap_err(), "line 2: missing closing ']'");
}

#[test]
fn parse_empty_node_name() {
    assert_eq!(parse("graph TD\n[foo]").unwrap_err(), "line 2: empty node name in '[foo]'");
}

#[test]
fn parse_empty_endpoint() {
    assert_eq!(parse("graph TD\nA --> ").unwrap_err(), "line 2: empty endpoint in edge: A -->");
}

#[test]
fn parse_first_error_wins() {
    assert_eq!(parse("A[x\nB(y").unwrap_err(), "line 1: missing closing ']'");
}

#[test]
fn parse_subgraph() {
    let g = parse("graph TD\nsubgraph S [Group]\nA-->B\nend\nC").unwrap();
    assert_eq!(g.subgraphs.len(), 1);
    assert_eq!(g.subgraphs[0].name, "S");
    assert_eq!(g.subgraphs[0].label, "Group");
    assert_eq!(g.subgraphs[0].parent, None);
    assert_eq!(g.nodes[0].subgraph, Some(0));
    assert_eq!(g.nodes[1].subgraph, Some(0));
    assert_eq!(g.nodes[2].subgraph, None);
}

#[test]
fn parse_nested_subgraphs() {
    let g = parse("subgraph outer\nsubgraph inner\nA\nend\nB\nend").unwrap();
    assert_eq!(g.subgraphs.len(), 2);
    assert_eq!(g.subgraphs[1].parent, Some(0));
    assert_eq!(g.nodes[0].subgraph, Some(1));
    assert_eq!(g.nodes[1].subgraph, Some(0));
    assert!(g.node_in_subgraph(0, 0));
    assert!(g.node_in_subgraph(0, 1));
    assert!(!g.node_in_subgraph(1, 1));
}

#[test]
fn parse_multiline_square_label() {
    let g = parse("A[Hello<br>World]").unwrap();
    assert_eq!(g.nodes[0].label_lines, vec!["Hello".to_string(), "World".to_string()]);
    assert_eq!(g.nodes[0].shape, Shape::Square);
}

#[test]
fn parse_quoted_label_and_icons() {
    let g = parse("A(\"fa:fa-car  Drive   fast\")").unwrap();
    assert_eq!(g.nodes[0].label_lines, vec!["Drive fast".to_string()]);
    assert_eq!(g.nodes[0].shape, Shape::Round);
}

#[test]
fn parse_pipe_label() {
    let g = parse("A -->|yes| B").unwrap();
    assert_eq!(g.edges[0].label, Some("yes".to_string()));
}

#[test]
fn parse_inline_label_and_styles() {
    let g = parse("A -- maybe --> B\nB ==> C\nC -.-> D\nD ~~~ E").unwrap();
    assert_eq!(g.edges[0].label, Some("maybe".to_string()));
    assert_eq!(g.edges[1].style, EdgeStyle::Thick);
    assert_eq!(g.edges[2].style, EdgeStyle::Dotted);
    assert_eq!(g.edges[3].style, EdgeStyle::Invisible);
}

#[test]
fn parse_tips_and_length() {
    let g = parse("A <--> B\nB --x C\nC --o D\nD ---> E\nE --- F").unwrap();
    assert!(g.edges[0].tip_back);
    assert_eq!(g.edges[0].tip_fwd, ArrowTip::Arrow);
    assert_eq!(g.edges[1].tip_fwd, ArrowTip::Cross);
    assert_eq!(g.edges[2].tip_fwd, ArrowTip::Circle);
    assert_eq!(g.edges[3].length, 2);
    assert_eq!(g.edges[4].tip_fwd, ArrowTip::NoTip);
}

#[test]
fn parse_groups_cross_product() {
    let g = parse("A & B --> C & D").unwrap();
    assert_eq!(g.edges.len(), 4);
    assert_eq!((g.edges[0].from, g.edges[0].to), (0, 2));
    assert_eq!((g.edges[3].from, g.edges[3].to), (1, 3));
}

#[test]
fn parse_relabels_bare_node() {
    let g = parse("A --> B\nA[Start]").unwrap();
    assert_eq!(g.nodes.len(), 2);
    assert_eq!(g.nodes[0].label_lines, vec!["Start".to_string()]);
    assert_eq!(g.nodes[0].shape, Shape::Square);
}

#[test]
fn parse_style_directive() {
    let g = parse("graph TD\nA\nstyle A stroke:#f00").unwrap();
    assert_eq!(g.nodes[0].style.fg, Some(Color::Rgb(255, 0, 0)));
}

#[test]
fn parse_class_directive() {
    let g = parse("classDef hot fill:#0f0\nA\nB\nclass A hot").unwrap();
    assert_eq!(g.nodes[0].style.fg, Some(Color::Rgb(0, 255, 0)));
    assert_eq!(g.nodes[1].style.fg, None);
}

#[test]
fn parse_stroke_beats_fill() {
    let g = parse("A\nstyle A fill:#00f,stroke:#f00").unwrap();
    assert_eq!(g.nodes[0].style.fg, Some(Color::Rgb(255, 0, 0)));
}

#[test]
fn parse_skips_malformed_color_value() {
    let g = parse("graph TD\nA\nstyle A fill:#é0").unwrap();
    assert_eq!(g.nodes[0].style.fg, None);
    let g = parse("graph TD\nA\nstyle A fill:#e00").unwrap();
    assert_eq!(g.nodes[0].style.fg, Some(Color::Rgb(238, 0, 0)));
}

#[test]
fn split_br_forms() {
    assert_eq!(split_br("a<br>b"), vec!["a".to_string(), "b".to_string()]);
    assert_eq!(split_br("a<BR/> b"), vec!["a".to_string(), "b".to_string()]);
    assert_eq!(split_br("a <br /> b"), vec!["a".to_string(), "b".to_string()]);
    assert_eq!(split_br("x"), vec!["x".to_string()]);
    assert_eq!(split_br(""), vec!["".to_string()]);
    assert_eq!(split_br("a<br"), vec!["a".to_string(), "<br".to_string()]);
}

#[test]
fn parse_edge_nodes_join_open_subgraph() {
    let g = parse("A\nsubgraph S\nA --> B\nend").unwrap();
    assert_eq!(g.nodes[0].subgraph, Some(0));
    assert_eq!(g.nodes[1].subgraph, Some(0));
    let g = parse("subgraph T\nA\nend\nsubgraph S\nA --> B\nend").unwrap();
    assert_eq!(g.nodes[0].subgraph, Some(0));
    assert_eq!(g.nodes[1].subgraph, Some(1));
    let g = parse("subgraph S\nA\nend\nsubgraph T\nA\nend").unwrap();
    assert_eq!(g.nodes[0].subgraph, Some(1));
}

#[test]
fn parse_subgraph_named_by_label() {
    let g = parse("subgraph \"Only label\"\nA\nend").unwrap_or_else(|e| panic!("{}", e));
    assert_eq!(g.subgraphs.len(), 1);
    assert_eq!(g.subgraphs[0].label, "\"Only label\"");
}

#[test]
fn parse_later_class_definition_wins() {
    let g = parse("classDef c stroke:#f00\nclassDef c stroke:#00f\nA\nclass A c").unwrap();
    assert_eq!(g.nodes[0].style.fg, Some(Color::Rgb(0, 0, 255)));
}

#[test]
fn parse_edge_text_label_and_pipe_label() {
    let g = parse("A -- a --> B -->|b| C").unwrap();
    assert_eq!(g.edges.len(), 2);
    assert_eq!(g.edges[0].label, Some("a".to_string()));
    assert_eq!(g.edges[1].label, Some("b".to_string()));
    assert_eq!(g.nodes[2].name, "C");
}

#[test]
fn parse_subgraph_errors_have_no_line_number() {
    assert_eq!(parse("graph TD\nsubgraph\nA\nend").unwrap_err(), "empty identifier");
    assert_eq!(parse("subgraph S [x\nA\nend").unwrap_err(), "missing closing ']'");
}

#[test]
fn parse_empty_group_member() {
    assert_eq!(parse("A & --> B").unwrap_err(), "line 1: empty endpoint in edge: A & --> B");
}
