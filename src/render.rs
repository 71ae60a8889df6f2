//! What each region of a frame shows: a closed set of widgets, filled from a
//! snapshot.
use vstd::prelude::*;
use crate::layout::{Rect, Regions};
use crate::sampler::SysStats;

verus! {

/// Characters of a process name in the process panel.
pub const NAME_WIDTH: usize = 15;

/// A widget as the terminal draws it.
pub enum Widget {
    /// A labeled horizontal bar filled to `percent` (0 to 100).
    Bar { title: String, percent: u16 },
    /// A labeled list of text lines.
    List { title: String, lines: Vec<String> },
}

/// A widget's contents as character sequences.
pub enum WidgetView {
    Bar { title: Seq<char>, percent: u16 },
    List { title: Seq<char>, lines: Seq<Seq<char>> },
}

impl View for Widget {
    type V = WidgetView;

    open spec fn view(&self) -> WidgetView {
        match self {
            Widget::Bar { title, percent } => WidgetView::Bar { title: title@, percent: *percent },
            Widget::List { title, lines } => WidgetView::List {
                title: title@,
                lines: lines@.map_values(|l: String| l@),
            },
        }
    }
}

/// Which of the dashboard's panels a widget belongs to.
#[derive(Clone, Copy, PartialEq, Eq, Structural, Debug)]
pub enum PanelKind {
    Cpu,
    Ram,
    Processes,
    Network,
}

/// A widget and the region it is drawn in.
pub struct Panel {
    pub kind: PanelKind,
    pub area: Rect,
    pub widget: Widget,
}

pub open spec fn panels_view(v: Seq<Panel>) -> Seq<(PanelKind, Rect, WidgetView)> {
    v.map_values(|p: Panel| (p.kind, p.area, p.widget@))
}

/// Whole percent of CPU load (hundredths of a percent, rounded down), at most 100.
pub open spec fn cpu_percent_of(cpu_usage: u32) -> int {
    let p = cpu_usage as int / 100;
    if p > 100 {
        100
    } else {
        p
    }
}

/// `round(used / total * 100)` clamped to 100; 0 when the total is 0.
pub open spec fn ram_percent_of(used: u64, total: u64) -> int {
    if total == 0 {
        0
    } else {
        let p = (200 * used as int + total as int) / (2 * total as int);
        if p > 100 {
            100
        } else {
            p
        }
    }
}

pub open spec fn digit_char(d: int) -> char {
    seq!['0', '1', '2', '3', '4', '5', '6', '7', '8', '9'][d]
}

/// Decimal digits of `n`, without leading zeros.
pub open spec fn decimal(n: nat) -> Seq<char>
    decreases n,
{
    if n < 10 {
        seq![digit_char(n as int)]
    } else {
        decimal(n / 10).push(digit_char((n % 10) as int))
    }
}

/// A name cut or padded with spaces on the right to `NAME_WIDTH` characters.
pub open spec fn fitted_name(name: Seq<char>) -> Seq<char> {
    if name.len() >= NAME_WIDTH {
        name.take(NAME_WIDTH as int)
    } else {
        name + Seq::new((NAME_WIDTH - name.len()) as nat, |i: int| ' ')
    }
}

/// One line of the process panel: `<name> | <megabytes> MB`.
pub open spec fn process_line_of(name: Seq<char>, mb: u64) -> Seq<char> {
    fitted_name(name) + " | "@ + decimal(mb as nat) + " MB"@
}

/// The lines of the network panel.
pub open spec fn network_lines_of(net_in: u64, net_out: u64) -> Seq<Seq<char>> {
    seq!["Received: "@ + decimal(net_in as nat) + " B"@, "Transmitted: "@ + decimal(net_out as nat) + " B"@]
}

/// A region with its widget, or nothing where the region covers no cell.
pub open spec fn shown(kind: PanelKind, area: Rect, w: WidgetView) -> Seq<(PanelKind, Rect, WidgetView)> {
    if area.spec_is_empty() {
        seq![]
    } else {
        seq![(kind, area, w)]
    }
}

/// The panels of a frame, in drawing order: CPU, RAM, processes, network.
pub open spec fn frame_of(stats: SysStats, regions: Regions) -> Seq<(PanelKind, Rect, WidgetView)> {
    shown(PanelKind::Cpu, regions.cpu, WidgetView::Bar { title: " CPU "@, percent: cpu_percent_of(stats.cpu_usage) as u16 })
        + shown(
        PanelKind::Ram,
        regions.ram,
        WidgetView::Bar { title: " RAM "@, percent: ram_percent_of(stats.mem_used, stats.mem_total) as u16 },
    ) + shown(
        PanelKind::Processes,
        regions.processes,
        WidgetView::List {
            title: " Top Processes (Mem) "@,
            lines: stats.processes@.map_values(|e: (String, u64)| process_line_of(e.0@, e.1)),
        },
    ) + shown(
        PanelKind::Network,
        regions.network,
        WidgetView::List { title: " Network "@, lines: network_lines_of(stats.net_in, stats.net_out) },
    )
}

/// Fill of the CPU bar.
pub fn cpu_percent(cpu_usage: u32) -> (r: u16)
    ensures
        r == cpu_percent_of(cpu_usage),
        r <= 100,
{
    let p = cpu_usage / 100;
    if p > 100 {
        100
    } else {
        p as u16
    }
}

/// Fill of the RAM bar.
pub fn ram_percent(used: u64, total: u64) -> (r: u16)
    ensures
        r == ram_percent_of(used, total),
        r <= 100,
{
    if total == 0 {
        0
    } else {
        let p = (200 * used as u128 + total as u128) / (2 * total as u128);
        if p > 100 {
            100
        } else {
            p as u16
        }
    }
}

/// The RAM bar is always between 0 and 100, whatever the two counts are.
pub proof fn lemma_ram_percent_bounds(used: u64, total: u64)
    ensures
        0 <= ram_percent_of(used, total) <= 100,
{
    if total > 0 {
        assert((200 * used as int + total as int) / (2 * total as int) >= 0) by (nonlinear_arith)
            requires
                total > 0,
        ;
    }
}

fn digit_str(d: u64) -> (r: &'static str)
    requires
        d < 10,
    ensures
        r@ == seq![digit_char(d as int)],
{
    if d == 0 {
        proof { reveal_strlit("0"); }
        "0"
    } else if d == 1 {
        proof { reveal_strlit("1"); }
        "1"
    } else if d == 2 {
        proof { reveal_strlit("2"); }
        "2"
    } else if d == 3 {
        proof { reveal_strlit("3"); }
        "3"
    } else if d == 4 {
        proof { reveal_strlit("4"); }
        "4"
    } else if d == 5 {
        proof { reveal_strlit("5"); }
        "5"
    } else if d == 6 {
        proof { reveal_strlit("6"); }
        "6"
    } else if d == 7 {
        proof { reveal_strlit("7"); }
        "7"
    } else if d == 8 {
        proof { reveal_strlit("8"); }
        "8"
    } else {
        proof { reveal_strlit("9"); }
        "9"
    }
}

fn push_decimal(s: &mut String, n: u64)
    ensures
        final(s)@ == old(s)@ + decimal(n as nat),
    decreases n,
{
    if n >= 10 {
        push_decimal(s, n / 10);
    }
    s.append(digit_str(n % 10));
    proof {
        if n >= 10 {
            assert(decimal(n as nat) == decimal((n / 10) as nat).push(digit_char((n % 10) as int)));
        }
    }
}

/// Decimal representation of `n`.
pub fn decimal_string(n: u64) -> (r: String)
    ensures
        r@ == decimal(n as nat),
{
    let mut s = String::new();
    push_decimal(&mut s, n);
    s
}

/// A process name fitted to the panel's name column.
pub fn fit_name(name: &String) -> (r: String)
    ensures
        r@ == fitted_name(name@),
{
    let len = name.as_str().unicode_len();
    if len >= NAME_WIDTH {
        String::from_str(name.as_str().substring_char(0, NAME_WIDTH))
    } else {
        let mut s = String::from_str(name.as_str());
        let mut i: usize = len;
        while i < NAME_WIDTH
            invariant
                len == name@.len(),
                len <= i <= NAME_WIDTH,
                s@ =~= name@ + Seq::new((i - len) as nat, |j: int| ' '),
            decreases NAME_WIDTH - i,
        {
            proof { reveal_strlit(" "); }
            s.append(" ");
            i = i + 1;
        }
        s
    }
}

/// One line of the process panel.
pub fn process_line(name: &String, mb: u64) -> (r: String)
    ensures
        r@ == process_line_of(name@, mb),
{
    let mut s = fit_name(name);
    s.append(" | ");
    push_decimal(&mut s, mb);
    s.append(" MB");
    s
}

/// The lines of the network panel.
pub fn network_lines(net_in: u64, net_out: u64) -> (r: Vec<String>)
    ensures
        r@.map_values(|l: String| l@) == network_lines_of(net_in, net_out),
{
    let mut rx = String::from_str("Received: ");
    push_decimal(&mut rx, net_in);
    rx.append(" B");
    let mut tx = String::from_str("Transmitted: ");
    push_decimal(&mut tx, net_out);
    tx.append(" B");
    let r = vec![rx, tx];
    assert(r@.map_values(|l: String| l@) =~= network_lines_of(net_in, net_out));
    r
}

fn push_panel(panels: &mut Vec<Panel>, kind: PanelKind, area: Rect, widget: Widget)
    ensures
        panels_view(final(panels)@) == panels_view(old(panels)@) + shown(kind, area, widget@),
{
    let ghost w = widget@;
    if !area.is_empty() {
        panels.push(Panel { kind, area, widget });
    }
    assert(panels_view(final(panels)@) =~= panels_view(old(panels)@) + shown(kind, area, w));
}

/// Describes the frame for a snapshot: one widget per region that covers at
/// least one cell, nothing for an empty region.
pub fn render(stats: &SysStats, regions: &Regions) -> (r: Vec<Panel>)
    ensures
        panels_view(r@) == frame_of(*stats, *regions),
{
    let mut panels: Vec<Panel> = Vec::new();
    push_panel(
        &mut panels,
        PanelKind::Cpu,
        regions.cpu,
        Widget::Bar { title: String::from_str(" CPU "), percent: cpu_percent(stats.cpu_usage) },
    );
    push_panel(
        &mut panels,
        PanelKind::Ram,
        regions.ram,
        Widget::Bar { title: String::from_str(" RAM "), percent: ram_percent(stats.mem_used, stats.mem_total) },
    );
    let n = stats.processes.len();
    let mut lines: Vec<String> = Vec::new();
    let mut i: usize = 0;
    while i < n
        invariant
            n == stats.processes@.len(),
            i <= n,
            lines@.map_values(|l: String| l@) =~= stats.processes@.take(i as int).map_values(
                |e: (String, u64)| process_line_of(e.0@, e.1),
            ),
        decreases n - i,
    {
        let line = process_line(&stats.processes[i].0, stats.processes[i].1);
        let ghost before = lines@;
        lines.push(line);
        proof {
            let f = |e: (String, u64)| process_line_of(e.0@, e.1);
            let g = |l: String| l@;
            assert(stats.processes@.take(i + 1) =~= stats.processes@.take(i as int).push(stats.processes@[i as int]));
            assert(lines@ =~= before.push(line));
            assert(lines@.map_values(g) =~= before.map_values(g).push(line@));
            assert(stats.processes@.take(i + 1).map_values(f) =~= stats.processes@.take(i as int).map_values(f).push(
                f(stats.processes@[i as int]),
            ));
        }
        i = i + 1;
    }
    assert(stats.processes@.take(n as int) =~= stats.processes@);
    push_panel(&mut panels, PanelKind::Processes, regions.processes, Widget::List { title: String::from_str(" Top Processes (Mem) "), lines });
    push_panel(
        &mut panels,
        PanelKind::Network,
        regions.network,
        Widget::List { title: String::from_str(" Network "), lines: network_lines(stats.net_in, stats.net_out) },
    );
    assert(panels_view(panels@) =~= frame_of(*stats, *regions));
    panels
}

} // verus!
