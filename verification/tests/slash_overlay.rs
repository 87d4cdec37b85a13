use codex_tui::slash_command_overlay::{Area, SlashCommandOverlay, TextStyle};
use codex_tui::slash_commands::{commands, name_column_width, SlashCommand};

fn names(v: &[codex_tui::slash_commands::CommandInfo]) -> Vec<&'static str> {
    v.iter().map(|c| c.name).collect()
}

#[test]
fn command_table_lists_nine_commands_in_order() {
    let t = commands();
    assert_eq!(
        names(&t),
        vec![
            "/clear",
            "/clearhistory",
            "/compact",
            "/history",
            "/help",
            "/model",
            "/approval",
            "/bug",
            "/diff"
        ]
    );
    assert_eq!(t[7].command, SlashCommand::Bug);
    assert_eq!(t[1].description, "Clear command history");
    assert_eq!(name_column_width(), 13);
}

#[test]
fn empty_filter_keeps_table_order() {
    let all = SlashCommandOverlay::filter_and_rank_commands("");
    assert_eq!(names(&all), names(&commands()));
    let blank = SlashCommandOverlay::filter_and_rank_commands("  \t ");
    assert_eq!(names(&blank), names(&commands()));
}

#[test]
fn filter_matches_prefix_and_sorts_by_name() {
    let c = SlashCommandOverlay::filter_and_rank_commands("c");
    assert_eq!(names(&c), vec!["/clear", "/clearhistory", "/compact"]);
    let h = SlashCommandOverlay::filter_and_rank_commands("  H ");
    assert_eq!(names(&h), vec!["/help", "/history"]);
    let cl = SlashCommandOverlay::filter_and_rank_commands("CL");
    assert_eq!(names(&cl), vec!["/clear", "/clearhistory"]);
}

#[test]
fn filter_without_match_lists_nothing() {
    assert!(SlashCommandOverlay::filter_and_rank_commands("xyz").is_empty());
    // The leading '/' is not part of what is matched.
    assert!(SlashCommandOverlay::filter_and_rank_commands("/c").is_empty());
    assert!(SlashCommandOverlay::filter_and_rank_commands("clearhistoryx").is_empty());
}

#[test]
fn filtered_commands_uses_the_overlay_filter() {
    let o = SlashCommandOverlay { filter: "d", selected: 0, scroll_offset: 0, max_height: 10 };
    assert_eq!(names(&o.filtered_commands()), vec!["/diff"]);
}

#[test]
fn wrap_text_fills_lines_greedily() {
    assert_eq!(SlashCommandOverlay::wrap_text("hello world foo", 11), vec!["hello world", "foo"]);
    assert_eq!(SlashCommandOverlay::wrap_text("hello world foo", 15), vec!["hello world foo"]);
    assert_eq!(SlashCommandOverlay::wrap_text("  a  bb   ccc ", 3), vec!["a", "bb", "ccc"]);
    assert_eq!(SlashCommandOverlay::wrap_text("a bb", 4), vec!["a bb"]);
}

#[test]
fn wrap_text_keeps_long_words_whole() {
    assert_eq!(
        SlashCommandOverlay::wrap_text("supercalifragilistic x", 5),
        vec!["supercalifragilistic", "x"]
    );
    assert_eq!(SlashCommandOverlay::wrap_text("a b", 0), vec!["a", "b"]);
}

#[test]
fn wrap_text_of_blank_text_is_empty() {
    assert!(SlashCommandOverlay::wrap_text("", 4).is_empty());
    assert!(SlashCommandOverlay::wrap_text(" \n\t ", 4).is_empty());
}

#[test]
fn wrap_text_counts_bytes_and_unicode_space() {
    // "é" takes two bytes, so "é é" (5 bytes) does not fit in 3.
    assert_eq!(SlashCommandOverlay::wrap_text("é é", 3), vec!["é", "é"]);
    assert_eq!(SlashCommandOverlay::wrap_text("é é", 5), vec!["é é"]);
    // U+3000 IDEOGRAPHIC SPACE separates words.
    assert_eq!(SlashCommandOverlay::wrap_text("a\u{3000}b", 10), vec!["a b"]);
}

#[test]
fn wrap_text_of_long_description() {
    let t = commands();
    assert_eq!(
        SlashCommandOverlay::wrap_text(t[2].description, 63),
        vec![
            "Clear conversation history but keep a summary in context.",
            "Optional: /compact [instructions for summarization]"
        ]
    );
}

#[test]
fn overlay_height_is_clamped() {
    let mk = |filter, max_height| SlashCommandOverlay { filter, selected: 0, scroll_offset: 0, max_height };
    assert_eq!(mk("", 20).overlay_height(), 9);
    assert_eq!(mk("", 5).overlay_height(), 5);
    assert_eq!(mk("c", 20).overlay_height(), 3);
    assert_eq!(mk("xyz", 20).overlay_height(), 1);
    assert_eq!(mk("", 0).overlay_height(), 1);
}

#[test]
fn render_plan_draws_selected_row() {
    let o = SlashCommandOverlay { filter: "bug", selected: 0, scroll_offset: 0, max_height: 5 };
    let plan = o.render_plan(Area { x: 0, y: 0, width: 80, height: 5 });
    assert_eq!(plan.len(), 3);
    assert_eq!((plan[0].x, plan[0].y, plan[0].text.as_str()), (1, 0, "\u{276D}"));
    assert_eq!(plan[0].style, TextStyle::SelectedChevron);
    assert_eq!((plan[1].x, plan[1].y, plan[1].text.as_str()), (3, 0, "/bug"));
    assert_eq!(plan[1].style, TextStyle::SelectedCommand);
    assert_eq!(
        (plan[2].x, plan[2].y, plan[2].text.as_str()),
        (8, 0, "Generate a prefilled GitHub issue URL with session log")
    );
    assert_eq!(plan[2].style, TextStyle::Description);
}

#[test]
fn render_plan_of_empty_list_draws_nothing() {
    let o = SlashCommandOverlay { filter: "xyz", selected: 3, scroll_offset: 7, max_height: 5 };
    assert!(o.render_plan(Area { x: 0, y: 0, width: 80, height: 5 }).is_empty());
}

#[test]
fn render_plan_stops_at_max_lines_and_area_bottom() {
    // Two rows fit: "/clear" and "/clearhistory" take one row each at width 80.
    let o = SlashCommandOverlay { filter: "", selected: 1, scroll_offset: 0, max_height: 2 };
    let plan = o.render_plan(Area { x: 2, y: 10, width: 80, height: 6 });
    let rows: Vec<u16> = plan.iter().map(|d| d.y).collect();
    assert_eq!(rows, vec![10, 10, 10, 11, 11, 11]);
    assert_eq!(plan[0].text, " ");
    assert_eq!(plan[0].style, TextStyle::Chevron);
    assert_eq!(plan[3].text, "\u{276D}");
    assert_eq!(plan[4].text, "/clearhistory");
    assert_eq!(plan[4].x, 5);
    assert_eq!(plan[5].x, 5 + 13 + 1);

    // The area is one row high: only the first row is drawn.
    let o = SlashCommandOverlay { filter: "", selected: 0, scroll_offset: 0, max_height: 9 };
    let plan = o.render_plan(Area { x: 0, y: 0, width: 80, height: 1 });
    assert_eq!(plan.len(), 3);
    assert!(plan.iter().all(|d| d.y == 0));
}

#[test]
fn render_plan_wraps_descriptions_below_the_first_line() {
    let o = SlashCommandOverlay { filter: "compact", selected: 0, scroll_offset: 0, max_height: 4 };
    let plan = o.render_plan(Area { x: 0, y: 0, width: 80, height: 4 });
    assert_eq!(plan.len(), 4);
    assert_eq!(plan[2].text, "Clear conversation history but keep a summary in context.");
    assert_eq!((plan[3].x, plan[3].y), (12, 1));
    assert_eq!(plan[3].text, "Optional: /compact [instructions for summarization]");
}

#[test]
fn render_plan_starts_at_the_scroll_position() {
    let o = SlashCommandOverlay { filter: "", selected: 4, scroll_offset: 3, max_height: 2 };
    let plan = o.render_plan(Area { x: 0, y: 0, width: 80, height: 9 });
    let names: Vec<&str> = plan.iter().filter(|d| d.text.starts_with('/') && d.x == 3).map(|d| d.text.as_str()).collect();
    assert_eq!(names, vec!["/history", "/help"]);
}

#[test]
fn filter_ignores_case_and_surrounding_space() {
    let a = SlashCommandOverlay::filter_and_rank_commands("c");
    let b = SlashCommandOverlay::filter_and_rank_commands(" C\t");
    assert_eq!(names(&a), names(&b));
}

#[test]
fn wrapped_lines_keep_every_word_in_order() {
    for d in commands().iter().map(|c| c.description) {
        for width in [0, 5, 20, 63] {
            let lines = SlashCommandOverlay::wrap_text(d, width);
            assert_eq!(lines.join(" "), d.split_whitespace().collect::<Vec<_>>().join(" "));
            for l in &lines {
                assert!(!l.is_empty());
                assert!(l.len() <= width || !l.contains(' '));
            }
        }
    }
}

#[test]
fn render_plan_scrolls_down_to_the_selection() {
    // "/clear" and "/clearhistory" take one row each, "/compact" two: from the
    // top, "/history" would not fit into three rows.
    let o = SlashCommandOverlay { filter: "", selected: 3, scroll_offset: 0, max_height: 3 };
    let plan = o.render_plan(Area { x: 0, y: 0, width: 80, height: 9 });
    let names: Vec<&str> = plan.iter().filter(|d| d.x == 3).map(|d| d.text.as_str()).collect();
    assert_eq!(names, vec!["/compact", "/history"]);
    assert_eq!(plan.len(), 7);
    assert_eq!((plan[0].x, plan[0].y, plan[0].text.as_str()), (1, 0, " "));
    assert_eq!((plan[3].y, plan[3].x), (1, 12));
    assert_eq!((plan[4].x, plan[4].y, plan[4].text.as_str()), (1, 2, "\u{276D}"));
    assert_eq!(plan[4].style, TextStyle::SelectedChevron);
    assert_eq!((plan[5].x, plan[5].y, plan[5].text.as_str()), (3, 2, "/history"));
}

#[test]
fn render_plan_scrolls_up_to_the_selection() {
    let o = SlashCommandOverlay { filter: "", selected: 1, scroll_offset: 5, max_height: 3 };
    let plan = o.render_plan(Area { x: 0, y: 0, width: 80, height: 9 });
    assert_eq!((plan[0].x, plan[0].y, plan[0].text.as_str()), (1, 0, "\u{276D}"));
    assert_eq!((plan[1].x, plan[1].y, plan[1].text.as_str()), (3, 0, "/clearhistory"));
    let names: Vec<&str> = plan.iter().filter(|d| d.x == 3).map(|d| d.text.as_str()).collect();
    assert_eq!(names, vec!["/clearhistory", "/compact"]);
}

#[test]
fn render_plan_clamps_the_selection_to_the_list() {
    let o = SlashCommandOverlay { filter: "c", selected: 7, scroll_offset: 0, max_height: 9 };
    let plan = o.render_plan(Area { x: 0, y: 0, width: 80, height: 9 });
    let chevron = plan.iter().find(|d| d.style == TextStyle::SelectedChevron).unwrap();
    // "/compact" is the last of the three matches, below two one-row commands.
    assert_eq!(chevron.y, 2);
}
