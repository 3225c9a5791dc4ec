//! The editor's status line: mode, layer, tool, facing, tile and net
//! counts, the run transport, the probe under the cursor and the latest
//! message.

use vstd::prelude::*;
use vstd::string::*;

use crate::board::Board;
use crate::circuit::{decimal, numbered_name};
use crate::editor::{direction_label, facing_label, gate_kind_label, gate_label, tool_label, Editor, Mode, Tool};
use crate::sim::Sim;

verus! {

/// The mode's status-line word.
pub open spec fn mode_text(mode: Mode) -> Seq<char> {
    match mode {
        Mode::Edit => "EDIT"@,
        Mode::Run => "RUN"@,
    }
}

/// The active tool; a gate tool names its gate kind.
pub open spec fn tool_text(editor: Editor) -> Seq<char> {
    if editor.tool == Tool::Gate {
        "Gate:"@ + gate_kind_label(editor.gate_kind)
    } else {
        tool_label(editor.tool)
    }
}

/// While running: ticks so far, the speed as already formatted, and
/// whether the transport plays.
pub open spec fn run_text(mode: Mode, sim: Option<Sim>, playing: bool, hz_text: Seq<char>) -> Seq<char> {
    if mode == Mode::Run {
        let ticks = match sim {
            Some(s) => s.ticks_spec(),
            None => 0,
        };
        " | "@ + decimal(ticks) + " ticks | "@ + hz_text + " Hz | "@ + if playing {
            "play"@
        } else {
            "pause"@
        }
    } else {
        Seq::empty()
    }
}

/// While running with a board loaded and the cursor over a cell: that
/// cell's coordinates and whether it is energised.
pub open spec fn probe_text(mode: Mode, editor: Editor, sim: Option<Sim>) -> Seq<char> {
    match (mode, editor.hovered, sim) {
        (Mode::Run, Some(c), Some(s)) => " | probe ("@ + decimal(c.x as nat) + ","@ + decimal(c.y as nat) + ") "@ + if s.cell_on_spec(
            c,
        ) {
            "high"@
        } else {
            "low"@
        },
        _ => Seq::empty(),
    }
}

/// Mode, layer, tool, facing, and the tile and net counts.
pub open spec fn head_text(mode: Mode, editor: Editor, board: Board, sim: Option<Sim>) -> Seq<char> {
    let nets = match sim {
        Some(s) => s.nets_spec().count_spec(),
        None => 0,
    };
    mode_text(mode) + " | layer L"@ + decimal((editor.active_layer + 1) as nat) + "/"@ + decimal(board.layers_spec() as nat)
        + " | "@ + tool_text(editor) + " | facing "@ + direction_label(editor.facing) + " | "@ + decimal(
        board.occupied().len(),
    ) + " tiles | "@ + decimal(nets) + " nets"@
}

/// The latest message, when there is one.
pub open spec fn status_text(editor: Editor) -> Seq<char> {
    if editor.status@.len() > 0 {
        " | "@ + editor.status@
    } else {
        Seq::empty()
    }
}

/// The whole status line.
pub open spec fn hud_text(mode: Mode, editor: Editor, board: Board, sim: Option<Sim>, playing: bool, hz_text: Seq<char>) -> Seq<
    char,
> {
    head_text(mode, editor, board, sim) + run_text(mode, sim, playing, hz_text) + probe_text(mode, editor, sim) + status_text(
        editor,
    )
}

fn push_head(s: &mut String, mode: Mode, editor: &Editor, board: &Board, sim: Option<&Sim>)
    requires
        board.wf(),
        sim matches Some(x) ==> x.wf(),
    ensures
        final(s)@ == old(s)@ + head_text(
            mode,
            *editor,
            *board,
            match sim {
                Some(x) => Some(*x),
                None => None,
            },
        ),
{
    let ghost s0 = old(s)@;
    let ghost sim_v = match sim {
        Some(x) => Some(*x),
        None => None,
    };
    s.append(
        match mode {
            Mode::Edit => "EDIT",
            Mode::Run => "RUN",
        },
    );
    let ghost e1 = mode_text(mode) + " | layer L"@ + decimal((editor.active_layer + 1) as nat);
    let layer = numbered_name(" | layer L", editor.active_layer as u64 + 1);
    s.append(layer.as_str());
    assert(s@ =~= s0 + e1);
    let ghost e2 = e1 + "/"@ + decimal(board.layers_spec() as nat) + " | "@;
    let layers = numbered_name("/", board.layers() as u64);
    s.append(layers.as_str());
    s.append(" | ");
    assert(s@ =~= s0 + e2);
    if editor.tool == Tool::Gate {
        s.append("Gate:");
        s.append(gate_label(editor.gate_kind));
    } else {
        s.append(editor.tool.label());
    }
    let ghost e3 = e2 + tool_text(*editor) + " | facing "@ + direction_label(editor.facing);
    s.append(" | facing ");
    s.append(facing_label(editor.facing));
    assert(s@ =~= s0 + e3);
    let ghost e4 = e3 + " | "@ + decimal(board.occupied().len());
    let tiles = numbered_name(" | ", board.tile_count() as u64);
    s.append(tiles.as_str());
    assert(s@ =~= s0 + e4);
    let net_count: usize = match sim {
        Some(x) => x.net_count(),
        None => 0,
    };
    let ghost e5 = e4 + " tiles | "@ + decimal(net_count as nat) + " nets"@;
    let nets = numbered_name(" tiles | ", net_count as u64);
    s.append(nets.as_str());
    s.append(" nets");
    assert(s@ =~= s0 + e5);
    assert(e5 == head_text(mode, *editor, *board, sim_v));
}

/// Build the status line; the speed comes already formatted as `hz_text`.
pub fn hud_line(mode: Mode, editor: &Editor, board: &Board, sim: Option<&Sim>, playing: bool, hz_text: &str) -> (s: String)
    requires
        board.wf(),
        sim matches Some(x) ==> x.wf(),
    ensures
        s@ == hud_text(
            mode,
            *editor,
            *board,
            match sim {
                Some(x) => Some(*x),
                None => None,
            },
            playing,
            hz_text@,
        ),
{
    let ghost sim_v = match sim {
        Some(x) => Some(*x),
        None => None,
    };
    let mut s = String::new();
    push_head(&mut s, mode, editor, board, sim);
    let ghost head = s@;
    if mode == Mode::Run {
        let ticks: u64 = match sim {
            Some(x) => x.ticks(),
            None => 0,
        };
        let t = numbered_name(" | ", ticks);
        s.append(t.as_str());
        s.append(" ticks | ");
        s.append(hz_text);
        s.append(" Hz | ");
        s.append(
            if playing {
                "play"
            } else {
                "pause"
            },
        );
    }
    proof {
        assert(s@ =~= head + run_text(mode, sim_v, playing, hz_text@));
    }
    let ghost with_run = s@;
    if mode == Mode::Run {
        if let Some(c) = editor.hovered {
            if let Some(x) = sim {
                let px = numbered_name(" | probe (", c.x as u64);
                s.append(px.as_str());
                let py = numbered_name(",", c.y as u64);
                s.append(py.as_str());
                s.append(") ");
                s.append(
                    if x.cell_on(c) {
                        "high"
                    } else {
                        "low"
                    },
                );
            }
        }
    }
    proof {
        assert(s@ =~= with_run + probe_text(mode, *editor, sim_v));
    }
    let ghost with_probe = s@;
    if !editor.status.as_str().is_empty() {
        s.append(" | ");
        s.append(editor.status.as_str());
    }
    proof {
        assert(s@ =~= with_probe + status_text(*editor));
        assert(s@ =~= hud_text(mode, *editor, *board, sim_v, playing, hz_text@));
    }
    s
}

} // verus!
