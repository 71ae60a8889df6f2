use sysdash::layout::{layout, Rect, Regions};
use sysdash::render::{
    cpu_percent, decimal_string, fit_name, network_lines, process_line, ram_percent, render,
    PanelKind, Widget,
};
use sysdash::sampler::SysStats;

fn rect(x: u16, y: u16, width: u16, height: u16) -> Rect {
    Rect { x, y, width, height }
}

fn overlap(a: &Rect, b: &Rect) -> bool {
    let empty = a.width == 0 || a.height == 0 || b.width == 0 || b.height == 0;
    let ax2 = a.x as u32 + a.width as u32;
    let bx2 = b.x as u32 + b.width as u32;
    let ay2 = a.y as u32 + a.height as u32;
    let by2 = b.y as u32 + b.height as u32;
    !empty && (a.x as u32) < bx2 && (b.x as u32) < ax2 && (a.y as u32) < by2 && (b.y as u32) < ay2
}

fn all(r: &Regions) -> [Rect; 4] {
    [r.cpu, r.ram, r.processes, r.network]
}

fn stats() -> SysStats {
    SysStats {
        cpu_usage: 2599,
        mem_used: 8_000_000_000,
        mem_total: 16_000_000_000,
        processes: vec![("firefox".to_string(), 512), ("a-very-long-process-name".to_string(), 64)],
        net_in: 500,
        net_out: 300,
    }
}

#[test]
fn ram_percent_half() {
    assert_eq!(ram_percent(8_000_000_000, 16_000_000_000), 50);
}

#[test]
fn ram_percent_edges() {
    assert_eq!(ram_percent(5, 0), 0);
    assert_eq!(ram_percent(20, 10), 100);
    assert_eq!(ram_percent(u64::MAX, 1), 100);
    assert_eq!(ram_percent(1, 3), 33);
    assert_eq!(ram_percent(2, 3), 67);
    assert_eq!(ram_percent(1, 200), 1);
    assert_eq!(ram_percent(0, 200), 0);
}

#[test]
fn cpu_percent_whole() {
    assert_eq!(cpu_percent(2599), 25);
    assert_eq!(cpu_percent(10000), 100);
    assert_eq!(cpu_percent(u32::MAX), 100);
}

#[test]
fn layout_of_full_terminal() {
    let r = layout(rect(0, 0, 80, 24));
    assert_eq!(r.cpu, rect(0, 0, 80, 3));
    assert_eq!(r.ram, rect(0, 3, 80, 3));
    assert_eq!(r.processes, rect(0, 6, 40, 18));
    assert_eq!(r.network, rect(40, 6, 40, 18));
}

#[test]
fn layout_odd_width_and_offset() {
    let r = layout(rect(2, 1, 9, 10));
    assert_eq!(r.processes, rect(2, 7, 4, 4));
    assert_eq!(r.network, rect(6, 7, 5, 4));
}

#[test]
fn layout_two_rows_keeps_cpu_first() {
    let r = layout(rect(0, 0, 80, 2));
    assert_eq!(r.cpu, rect(0, 0, 80, 2));
    assert_eq!(r.ram.height, 0);
    assert_eq!(r.processes.height, 0);
    assert_eq!(r.network.height, 0);
}

#[test]
fn layout_regions_never_overlap() {
    for h in 1..30u16 {
        for w in 1..12u16 {
            let r = all(&layout(rect(3, 4, w, h)));
            for i in 0..4 {
                for j in 0..4 {
                    if i != j {
                        assert!(!overlap(&r[i], &r[j]));
                    }
                }
            }
        }
    }
}

#[test]
fn layout_is_repeatable() {
    let a = rect(1, 2, 33, 17);
    assert_eq!(layout(a), layout(a));
}

#[test]
fn decimal_strings() {
    assert_eq!(decimal_string(0), "0");
    assert_eq!(decimal_string(7), "7");
    assert_eq!(decimal_string(1234567), "1234567");
    assert_eq!(decimal_string(u64::MAX), "18446744073709551615");
}

#[test]
fn names_are_padded_or_cut() {
    assert_eq!(fit_name(&"bash".to_string()), "bash           ");
    assert_eq!(fit_name(&"a-very-long-process-name".to_string()), "a-very-long-pro");
    assert_eq!(fit_name(&"".to_string()).len(), 15);
}

#[test]
fn process_line_format() {
    assert_eq!(process_line(&"firefox".to_string(), 512), "firefox         | 512 MB");
}

#[test]
fn network_panel_lines() {
    assert_eq!(network_lines(500, 0), vec!["Received: 500 B".to_string(), "Transmitted: 0 B".to_string()]);
}

#[test]
fn render_full_frame() {
    let regions = layout(rect(0, 0, 80, 24));
    let panels = render(&stats(), &regions);
    assert_eq!(panels.len(), 4);
    let kinds: Vec<PanelKind> = panels.iter().map(|p| p.kind).collect();
    assert_eq!(kinds, vec![PanelKind::Cpu, PanelKind::Ram, PanelKind::Processes, PanelKind::Network]);
    match &panels[0].widget {
        Widget::Bar { title, percent } => {
            assert_eq!(title, " CPU ");
            assert_eq!(*percent, 25);
        }
        _ => panic!("cpu panel is a bar"),
    }
    match &panels[1].widget {
        Widget::Bar { title, percent } => {
            assert_eq!(title, " RAM ");
            assert_eq!(*percent, 50);
        }
        _ => panic!("ram panel is a bar"),
    }
    match &panels[2].widget {
        Widget::List { lines, .. } => {
            assert_eq!(lines, &vec!["firefox         | 512 MB".to_string(), "a-very-long-pro | 64 MB".to_string()]);
        }
        _ => panic!("process panel is a list"),
    }
    match &panels[3].widget {
        Widget::List { lines, .. } => {
            assert_eq!(lines, &vec!["Received: 500 B".to_string(), "Transmitted: 300 B".to_string()]);
        }
        _ => panic!("network panel is a list"),
    }
    assert_eq!(panels[2].area, regions.processes);
}

#[test]
fn render_skips_empty_regions() {
    let regions = layout(rect(0, 0, 80, 2));
    let panels = render(&stats(), &regions);
    assert_eq!(panels.len(), 1);
    assert_eq!(panels[0].kind, PanelKind::Cpu);
    assert_eq!(panels[0].area, rect(0, 0, 80, 2));
}
