//! The slash commands that the chat composer offers.

use vstd::prelude::*;

use crate::text::{byte_len, lemma_byte_len_ascii};

verus! {

/// A command that the user can run by typing `/name` in the composer.
#[derive(Debug, Clone, Copy, PartialEq, Eq, Structural)]
pub enum SlashCommand {
    Clear,
    ClearHistory,
    Compact,
    History,
    Help,
    Model,
    Approval,
    Bug,
    Diff,
}

/// A row of the command table: the text the user types, a one-line
/// description, and the command it selects.
#[derive(Debug, Clone, Copy)]
pub struct CommandInfo {
    pub name: &'static str,
    pub description: &'static str,
    pub command: SlashCommand,
}

/// The command table, in the order in which the popup lists it when the
/// filter is empty.
pub open spec fn command_table() -> Seq<CommandInfo> {
    seq![
        CommandInfo {
            name: "/clear",
            description: "Clear conversation history and free up context",
            command: SlashCommand::Clear,
        },
        CommandInfo {
            name: "/clearhistory",
            description: "Clear command history",
            command: SlashCommand::ClearHistory,
        },
        CommandInfo {
            name: "/compact",
            description: "Clear conversation history but keep a summary in context. Optional: /compact [instructions for summarization]",
            command: SlashCommand::Compact,
        },
        CommandInfo {
            name: "/history",
            description: "Open command history",
            command: SlashCommand::History,
        },
        CommandInfo {
            name: "/help",
            description: "Show list of commands",
            command: SlashCommand::Help,
        },
        CommandInfo {
            name: "/model",
            description: "Open model selection panel",
            command: SlashCommand::Model,
        },
        CommandInfo {
            name: "/approval",
            description: "Open approval mode selection panel",
            command: SlashCommand::Approval,
        },
        CommandInfo {
            name: "/bug",
            description: "Generate a prefilled GitHub issue URL with session log",
            command: SlashCommand::Bug,
        },
        CommandInfo {
            name: "/diff",
            description: "Show git diff of the working directory (or applied patches if not in git)",
            command: SlashCommand::Diff,
        },
    ]
}

/// Builds the command table.
pub fn commands() -> (table: Vec<CommandInfo>)
    ensures
        table@ == command_table(),
{
    let mut table: Vec<CommandInfo> = Vec::new();
    table.push(
        CommandInfo {
            name: "/clear",
            description: "Clear conversation history and free up context",
            command: SlashCommand::Clear,
        },
    );
    table.push(
        CommandInfo {
            name: "/clearhistory",
            description: "Clear command history",
            command: SlashCommand::ClearHistory,
        },
    );
    table.push(
        CommandInfo {
            name: "/compact",
            description: "Clear conversation history but keep a summary in context. Optional: /compact [instructions for summarization]",
            command: SlashCommand::Compact,
        },
    );
    table.push(
        CommandInfo {
            name: "/history",
            description: "Open command history",
            command: SlashCommand::History,
        },
    );
    table.push(
        CommandInfo {
            name: "/help",
            description: "Show list of commands",
            command: SlashCommand::Help,
        },
    );
    table.push(
        CommandInfo {
            name: "/model",
            description: "Open model selection panel",
            command: SlashCommand::Model,
        },
    );
    table.push(
        CommandInfo {
            name: "/approval",
            description: "Open approval mode selection panel",
            command: SlashCommand::Approval,
        },
    );
    table.push(
        CommandInfo {
            name: "/bug",
            description: "Generate a prefilled GitHub issue URL with session log",
            command: SlashCommand::Bug,
        },
    );
    table.push(
        CommandInfo {
            name: "/diff",
            description: "Show git diff of the working directory (or applied patches if not in git)",
            command: SlashCommand::Diff,
        },
    );
    assert(table@ =~= command_table());
    table
}

/// Every command name starts with `/`, which takes one byte, and no two
/// commands share a name.
pub proof fn lemma_command_names()
    ensures
        forall|i: int|
            0 <= i < command_table().len() ==> (#[trigger] command_table()[i]).name@.len() > 0
                && command_table()[i].name@[0] == '/',
        forall|i: int, j: int|
            0 <= i < command_table().len() && 0 <= j < command_table().len() && i != j
                ==> (#[trigger] command_table()[i]).name@ != (#[trigger] command_table()[j]).name@,
{
    reveal_strlit("/clear");
    reveal_strlit("/clearhistory");
    reveal_strlit("/compact");
    reveal_strlit("/history");
    reveal_strlit("/help");
    reveal_strlit("/model");
    reveal_strlit("/approval");
    reveal_strlit("/bug");
    reveal_strlit("/diff");
    let t = command_table();
    assert forall|i: int, j: int|
        0 <= i < t.len() && 0 <= j < t.len() && i != j implies (#[trigger] t[i]).name@
        != (#[trigger] t[j]).name@ by {
        if t[i].name@ == t[j].name@ {
            assert(t[i].name@.len() == t[j].name@.len());
            assert(t[i].name@[1] == t[j].name@[1]);
            assert(t[i].name@[2] == t[j].name@[2]);
            assert(t[i].name@[3] == t[j].name@[3]);
            assert(t[i].name@[5] == t[j].name@[5]);
        }
    }
}


/// What the user types to run `c`: a `/` and the command's name in lower
/// case.
pub open spec fn typed_name(c: SlashCommand) -> Seq<char> {
    match c {
        SlashCommand::Clear => "/clear"@,
        SlashCommand::ClearHistory => "/clearhistory"@,
        SlashCommand::Compact => "/compact"@,
        SlashCommand::History => "/history"@,
        SlashCommand::Help => "/help"@,
        SlashCommand::Model => "/model"@,
        SlashCommand::Approval => "/approval"@,
        SlashCommand::Bug => "/bug"@,
        SlashCommand::Diff => "/diff"@,
    }
}

/// Every row of the table runs the command that its name names.
pub proof fn law_command_table_names()
    ensures
        forall|i: int|
            0 <= i < command_table().len() ==> (#[trigger] command_table()[i]).name@ == typed_name(
                command_table()[i].command,
            ),
{
}

/// The longest name, in bytes, among `t`.
pub open spec fn max_name_len(t: Seq<CommandInfo>) -> nat
    decreases t.len(),
{
    if t.len() == 0 {
        0
    } else {
        let m = max_name_len(t.drop_last());
        let l = byte_len(t.last().name@);
        if l > m {
            l
        } else {
            m
        }
    }
}

/// Every name of the table is ASCII, at most 13 bytes long, and the
/// longest is 13 bytes.
pub proof fn lemma_name_lengths()
    ensures
        forall|i: int|
            0 <= i < command_table().len() ==> byte_len((#[trigger] command_table()[i]).name@)
                == command_table()[i].name@.len() && command_table()[i].name@.len() <= 13,
        max_name_len(command_table()) == 13,
{
    let t = command_table();
    assert forall|i: int| 0 <= i < t.len() implies byte_len((#[trigger] t[i]).name@) == t[i].name@.len()
        && t[i].name@.len() <= 13 by {
        reveal_strlit("/clear");
        reveal_strlit("/clearhistory");
        reveal_strlit("/compact");
        reveal_strlit("/history");
        reveal_strlit("/help");
        reveal_strlit("/model");
        reveal_strlit("/approval");
        reveal_strlit("/bug");
        reveal_strlit("/diff");
        lemma_byte_len_ascii(t[i].name@);
    }
    reveal_with_fuel(max_name_len, 10);
    assert(t.drop_last().drop_last().drop_last().drop_last().drop_last().drop_last().drop_last().drop_last().drop_last().len() == 0);
    assert(t[1].name@.len() == 13) by {
        reveal_strlit("/clearhistory");
    }
    assert(t.drop_last().drop_last().drop_last().drop_last().drop_last().drop_last().drop_last().last() == t[1]);
}

/// Width of the name column: the byte length of the longest name.
pub fn name_column_width() -> (w: usize)
    ensures
        w == max_name_len(command_table()),
        w == 13,
{
    proof {
        lemma_name_lengths();
    }
    let table = commands();
    let mut w: usize = 0;
    let mut i: usize = 0;
    while i < table.len()
        invariant
            i <= table@.len(),
            table@ == command_table(),
            w == max_name_len(command_table().take(i as int)),
            w <= 13,
            forall|j: int|
                0 <= j < command_table().len() ==> byte_len((#[trigger] command_table()[j]).name@)
                    == command_table()[j].name@.len() && command_table()[j].name@.len() <= 13,
        decreases table@.len() - i,
    {
        let l = table[i].name.len();
        proof {
            assert(command_table().take(i + 1).drop_last() =~= command_table().take(i as int));
        }
        if l > w {
            w = l;
        }
        i = i + 1;
    }
    assert(command_table().take(table@.len() as int) =~= command_table());
    w
}


/// No description is longer than 120 characters.
pub proof fn lemma_description_lengths()
    ensures
        forall|i: int|
            0 <= i < command_table().len() ==> (#[trigger] command_table()[i]).description@.len()
                <= 120,
{
    let t = command_table();
    assert forall|i: int| 0 <= i < t.len() implies (#[trigger] t[i]).description@.len() <= 120 by {
        reveal_strlit("Clear conversation history and free up context");
        reveal_strlit("Clear command history");
        reveal_strlit("Clear conversation history but keep a summary in context. Optional: /compact [instructions for summarization]");
        reveal_strlit("Open command history");
        reveal_strlit("Show list of commands");
        reveal_strlit("Open model selection panel");
        reveal_strlit("Open approval mode selection panel");
        reveal_strlit("Generate a prefilled GitHub issue URL with session log");
        reveal_strlit("Show git diff of the working directory (or applied patches if not in git)");
    }
}

} // verus!
