use mermaid_ascii::layout::{dims_fit_exec, layout};
use mermaid_ascii::parser::parse;
use mermaid_ascii::render::{drawable_exec, render, Theme};
use mermaid_ascii::settings::{chosen_theme, use_color, ColorMode, ThemeName};

fn draw(src: &str, theme: &Theme) -> String {
    let g = parse(src).unwrap();
    assert!(dims_fit_exec(&g, 1));
    let laid = layout(g, 1);
    assert!(drawable_exec(&laid));
    render(&laid, theme)
}

#[test]
fn render_single_node() {
    assert_eq!(draw("graph TD\nA", &Theme::plain()), "╭───╮\n│ A │\n╰───╯\n");
}

#[test]
fn render_square_node_padding() {
    let g = parse("B[Hi]").unwrap();
    let laid = layout(g, 2);
    assert_eq!(laid.nodes[0].width, 8);
    assert_eq!(laid.nodes[0].height, 3);
    assert_eq!(render(&laid, &Theme::plain()), "┌──────┐\n│  Hi  │\n└──────┘\n");
}

#[test]
fn render_two_nodes_td() {
    let expected = "╭───╮\n│ A │\n╰───╯\n  │\n  ▼\n╭───╮\n│ B │\n╰───╯\n";
    assert_eq!(draw("graph TD\nA-->B", &Theme::plain()), expected);
}

#[test]
fn render_two_nodes_bt() {
    let expected = "╭───╮\n│ B │\n╰───╯\n  ▲\n  │\n╭───╮\n│ A │\n╰───╯\n";
    assert_eq!(draw("graph BT\nA-->B", &Theme::plain()), expected);
}

#[test]
fn render_two_nodes_lr() {
    let expected = "╭───╮  ╭───╮\n│ A │─▶│ B │\n╰───╯  ╰───╯\n";
    assert_eq!(draw("graph LR\nA-->B", &Theme::plain()), expected);
}

#[test]
fn render_two_nodes_rl() {
    let expected = " ╭───╮  ╭───╮\n │ B │◀─│ A │\n ╰───╯  ╰───╯\n";
    assert_eq!(draw("graph RL\nA-->B", &Theme::plain()), expected);
}

#[test]
fn render_edge_label_td() {
    let expected = "╭───╮\n│ A │\n╰───╯\n  │\n yes\n  │\n  ▼\n╭───╮\n│ B │\n╰───╯\n";
    assert_eq!(draw("graph TD\nA-->|yes|B", &Theme::plain()), expected);
}

#[test]
fn render_subgraph_container() {
    let expected = "┌ S ────┐\n│       │\n│ ╭───╮ │\n│ │ A │ │\n│ ╰───╯ │\n└───────┘\n";
    assert_eq!(draw("graph TD\nsubgraph S\nA\nend", &Theme::plain()), expected);
}

#[test]
fn render_grey_theme_colors_lines_only() {
    let out = draw("graph TD\nA", &Theme::grey());
    assert_eq!(
        out,
        "\x1b[90m╭───╮\x1b[0m\n\x1b[90m│\x1b[0m A \x1b[90m│\x1b[0m\n\x1b[90m╰───╯\x1b[0m\n"
    );
}

#[test]
fn render_plain_theme_has_no_escapes() {
    let out = draw("graph TD\nA-->B\nB-->C\nA-->C", &Theme::plain());
    assert!(!out.contains('\x1b'));
    assert!(out.contains('▼'));
}

#[test]
fn render_long_edge_goes_through_dummy() {
    let g = parse("graph TD\nA-->B\nB-->C\nA-->C").unwrap();
    let laid = layout(g, 1);
    assert_eq!(laid.nodes.len(), 4);
    assert!(laid.nodes[3].is_dummy);
    assert_eq!(laid.nodes[3].name, "__dummy_3");
    assert_eq!((laid.nodes[3].width, laid.nodes[3].height), (1, 1));
    assert_eq!(laid.edges.len(), 4);
    assert_eq!(laid.edges[2].from, 0);
    assert_eq!(laid.edges[2].to, 3);
    assert_eq!(laid.edges[3].from, 3);
    assert_eq!(laid.edges[3].to, 2);
}

#[test]
fn layout_sizes_from_labels() {
    let g = parse("A[one<br>three]").unwrap();
    let laid = layout(g, 1);
    assert_eq!(laid.nodes[0].width, 9);
    assert_eq!(laid.nodes[0].height, 4);
    let g = parse("graph LR\nA[one<br>three]").unwrap();
    let laid = layout(g, 0);
    assert_eq!(laid.nodes[0].width, 7);
    assert_eq!(laid.nodes[0].height, 4);
}

#[test]
fn layout_layers_td() {
    let g = parse("graph TD\nA-->B").unwrap();
    let laid = layout(g, 1);
    assert_eq!((laid.nodes[0].x, laid.nodes[0].y), (0, 0));
    assert_eq!((laid.nodes[1].x, laid.nodes[1].y), (0, 5));
}

#[test]
fn color_settings() {
    assert!(!use_color(true, ColorMode::Always, true));
    assert!(use_color(false, ColorMode::Always, false));
    assert!(!use_color(false, ColorMode::Never, true));
    assert!(use_color(false, ColorMode::Auto, true));
    assert!(!use_color(false, ColorMode::Auto, false));
    let t = chosen_theme(ThemeName::Neon, false);
    assert!(t.border.is_empty() && t.label.is_empty());
    let t = chosen_theme(ThemeName::Mono, true);
    assert!(!t.arrow.is_empty());
}

#[test]
fn render_rl_keeps_labels_reading_forward() {
    let expected = " ╭───╮  ┌────┐\n │ B │◀─│ AB │\n ╰───╯  └────┘\n";
    assert_eq!(draw("graph RL\nA[AB]-->B", &Theme::plain()), expected);
}

#[test]
fn render_plain_shows_only_line_art_and_labels() {
    let out = draw("graph BT\nA[Start]-->|go|B(End)\nsubgraph S [Grp]\nB\nend", &Theme::plain());
    for c in out.chars() {
        let line_art = "│┃┊─━┄╭╮╰╯┌┐└┘┏┓┗┛┬┴├┤┼┳┻┣┫╋╳×○▼▲▶◀ \n".contains(c);
        let label = "StartgoEndGrpSB".contains(c);
        assert!(line_art || label, "unexpected {:?}", c);
    }
}

#[test]
fn render_dim_theme_uses_dim_code() {
    let out = draw("graph TD\nA", &Theme::dim());
    assert!(out.starts_with("\x1b[2m╭───╮\x1b[0m\n"));
    assert!(out.contains("\x1b[2mA"));
}

#[test]
fn render_without_color_has_no_escapes() {
    let theme = chosen_theme(ThemeName::Neon, use_color(false, ColorMode::Never, true));
    let out = draw("graph LR\nA-->B\nB-->C", &theme);
    assert!(!out.contains('\x1b'));
    let theme = chosen_theme(ThemeName::Neon, use_color(false, ColorMode::Always, false));
    let out = draw("graph LR\nA-->B", &theme);
    assert!(out.contains("\x1b[38;2;188;19;254m"));
}

#[test]
fn render_merge_into_one_target() {
    let out = draw("graph TD\nA-->C\nB-->C", &Theme::plain());
    assert_eq!(out.matches('▼').count(), 1);
    assert!(out.contains('┬') || out.contains('┴') || out.contains('┼'));
}

#[test]
fn render_larger_chart_shows_every_label() {
    let src = "flowchart LR\n\
        subgraph outer [Outer]\n\
        subgraph inner [Inner]\n\
        A[Start] --> B{Check}\n\
        end\n\
        B -- yes --> C(Done)\n\
        end\n\
        B -.->|no| D[Retry]\n\
        D ==> A\n\
        A ---> E\n\
        C & D --> F\n\
        classDef hot stroke:#f00\n\
        class C,D hot\n\
        style F fill:#0f0";
    for theme in [Theme::plain(), Theme::grey(), Theme::mono(), Theme::neon(), Theme::dim()] {
        let out = draw(src, &theme);
        for word in ["Start", "Check", "Done", "Retry"] {
            assert!(out.contains(word), "missing {}", word);
        }
    }
    for dir in ["TD", "BT", "RL"] {
        let out = draw(&src.replacen("LR", dir, 1), &Theme::plain());
        for word in ["Start", "Check", "Done", "Retry"] {
            assert!(out.contains(word), "missing {} in {}", word, dir);
        }
    }
}

#[test]
fn render_bt_two_line_label_reads_top_down() {
    assert_eq!(draw("flowchart BT\nA[a<br>b]", &Theme::plain()), "┌───┐\n│ a │\n│ b │\n└───┘\n");
}

#[test]
fn layout_two_nodes_td_and_lr_coordinates() {
    let td = layout(parse("flowchart TD\nA --> B").unwrap(), 1);
    assert_eq!((td.nodes[0].x, td.nodes[0].y, td.nodes[0].width, td.nodes[0].height), (0, 0, 5, 3));
    assert_eq!((td.nodes[1].x, td.nodes[1].y, td.nodes[1].width, td.nodes[1].height), (0, 5, 5, 3));
    let lr = layout(parse("flowchart LR\nA --> B").unwrap(), 1);
    assert_eq!((lr.nodes[0].x, lr.nodes[0].y, lr.nodes[0].width, lr.nodes[0].height), (0, 0, 5, 3));
    assert_eq!((lr.nodes[1].x, lr.nodes[1].y, lr.nodes[1].width, lr.nodes[1].height), (7, 0, 5, 3));
}

fn strip_sgr(s: &str) -> String {
    let mut out = String::new();
    let cs: Vec<char> = s.chars().collect();
    let mut i = 0;
    while i < cs.len() {
        if cs[i] == '\x1b' && i + 1 < cs.len() && cs[i + 1] == '[' {
            let mut j = i + 2;
            while j < cs.len() && (cs[j].is_ascii_digit() || cs[j] == ';') {
                j += 1;
            }
            if j < cs.len() && cs[j] == 'm' {
                i = j + 1;
                continue;
            }
        }
        out.push(cs[i]);
        i += 1;
    }
    out
}

#[test]
fn themed_render_stripped_is_plain() {
    let src = "graph TD\nA-->B\nA-->C\nsubgraph S\nC\nend\nB-->|go|D";
    let plain = draw(src, &Theme::plain());
    let grey = draw(src, &Theme::grey());
    assert_ne!(grey, plain);
    assert_eq!(strip_sgr(&grey), plain);
}

#[test]
fn layout_siblings_keep_gap_on_one_row() {
    let td = layout(parse("flowchart TD\nA --> B\nA --> C").unwrap(), 1);
    let (b, c) = (&td.nodes[1], &td.nodes[2]);
    assert_eq!(b.y, c.y);
    let (left, right) = if b.x < c.x { (b, c) } else { (c, b) };
    assert!(right.x >= left.x + left.width + 4);
}
