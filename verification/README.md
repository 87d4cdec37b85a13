# codex_tui

The slash-command popup and the lower pane of a terminal chat UI, with their
behaviour stated as Verus contracts and proved.

- `src/slash_commands.rs`: the command table.
- `src/text.rs`: white space, ASCII lower case, UTF-8 lengths, trimming,
  text order and line joining, over the `Seq<char>` view of strings.
- `src/slash_command_overlay.rs`: filtering and ranking commands, greedy word
  wrapping, the popup's height, and the plan of what the popup draws.
- `src/bottom_pane.rs`: the pane's state (text input, status indicator,
  approval queue) and the popup's selection, scrolling and height.
- `app/`: the ratatui/crossterm/tui-textarea side: widgets, key events,
  drawing and the redraw channel, driven by the library's decisions.
