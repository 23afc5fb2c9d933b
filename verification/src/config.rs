//! User configuration of the strip and of the remote machines.

use crate::canvas::Color;
use crate::number::Single;
use crate::order::StrMap;
use crate::widgets::theme;
use vstd::prelude::*;

verus! {

#[derive(Clone, Debug)]
pub struct Config {
    /// Where the strip goes: "right" (left of the system tray) or "left" (left
    /// edge of the taskbar).
    pub position: String,
    /// Extra pixels to shift the strip away from the edge it is attached to.
    pub offset: i32,
    /// Widgets in display order.
    pub widgets: Vec<String>,
    /// Refresh interval in milliseconds.
    pub update_ms: u32,
    /// Draw a vertical label of 3 letters next to chart widgets.
    pub labels: bool,
    /// Colour the cpu bars by utilisation instead of a single accent colour.
    pub utilization_colors: bool,
    /// Drive letter for the disk widget's free-space readout.
    pub disk: String,
    /// Accent colour: palette name or hex.
    pub accent: String,
    /// Colour mode per module.
    pub colors: StrMap<String>,
    /// "auto", "dark" or "light".
    pub theme: String,
    /// Multiplier for widget text.
    pub font_scale: Single,
    /// Show the faster cores first, instead of the hardware's order.
    pub group_pe_cores: bool,
    /// Draw a divider between cores of different classes.
    pub split_pe_cores: bool,
    /// Width of chart widgets: 34, 48, 64 or 96.
    pub chart_width: u32,
    /// Width of one core bar: "small", "medium" or "large".
    pub bar_width: String,
    /// Rows in the popup's process lists: 5, 10, 15 or 20.
    pub top_processes: u32,
    /// "auto" or a locale code.
    pub language: String,
    /// Network interfaces, by name, left out of the widget and the chart.
    pub net_disabled: Vec<String>,
    /// Physical disks, by model, left out of the widget and the chart.
    pub disks_disabled: Vec<String>,
    /// Listen for agents' beacons on the network.
    pub discovery: bool,
    /// Remote machines by key.
    pub remotes: StrMap<RemoteCfg>,
    /// Announce this machine and serve its metrics.
    pub share: bool,
    /// Identity used when sharing; generated once.
    pub share_id: String,
    /// Name announced when sharing; empty for the computer's name.
    pub share_name: String,
    pub share_port: u16,
    /// Masters must present this token; empty for anyone on the network.
    pub share_token: String,
    /// How the strip is hosted: "auto", "embedded" or "floating".
    pub mode: String,
}

/// One remote machine.
#[derive(Clone, Debug)]
pub struct RemoteCfg {
    /// The agent's installation id from its beacon.
    pub id: String,
    /// Last name the agent announced.
    pub name: String,
    /// "host:port"; learned from the beacon, or typed in.
    pub address: String,
    pub enabled: bool,
    /// Vertical label next to this machine's widgets.
    pub label: String,
    pub token: String,
    /// Colour mode per module.
    pub colors: StrMap<String>,
    pub net_disabled: Vec<String>,
    pub disks_disabled: Vec<String>,
    /// Vertical label next to this machine's widgets on or off.
    pub labels: bool,
    /// Divider between cores of different classes in this machine's chart.
    pub split_pe: bool,
    /// The faster cores first, instead of the order the agent reports.
    pub group_pe: bool,
}

/// The widgets of a new configuration.
pub open spec fn default_widgets() -> Seq<Seq<char>> {
    seq!["cpu_bars"@, "cpu_line"@, "mem"@, "gpu"@, "net"@, "disk"@, "battery"@]
}

impl Config {
    /// The maps are well formed.
    pub open spec fn wf(self) -> bool {
        &&& self.colors.wf()
        &&& self.remotes.wf()
        &&& forall|i: int|
            0 <= i < self.remotes.entries@.len() ==> (
            #[trigger] self.remotes.entries@[i]).1.colors.wf()
    }
}

pub open spec fn accent_of(c: Config, system: Option<Color>) -> Color {
    match theme::color_of(c.accent@, system) {
        Some(x) => x,
        None => theme::blue(),
    }
}

impl Config {
    /// The colour of the accent; blue where its name stands for none. `system`
    /// is the Windows accent colour.
    pub fn accent_color(&self, system: Option<Color>) -> (r: Color)
        ensures
            r == accent_of(*self, system),
    {
        match theme::named_color(self.accent.as_str(), system) {
            Some(c) => c,
            None => theme::blue(),
        }
    }
}

/// The text in front of a written configuration.
pub const HEADER: &'static str = "# winstats configuration\n# widgets: cpu_bars, cpu_line, cpu_mini, gpu, gpu_line, mem, mem_line,\n#          disk, disk_chart, net, net_chart, battery\n\n";

/// The file that a configuration is written to, from its serialised form.
pub fn file_text(body: &str) -> (r: String)
    ensures
        r@ == HEADER@ + body@,
{
    let mut s: String = HEADER.to_string();
    s.append(body);
    s
}

impl Default for Config {
    fn default() -> (r: Config)
        ensures
            r.wf(),
            r.position@ == "right"@,
            r.offset == 0,
            crate::text::views(r.widgets@) == default_widgets(),
            r.update_ms == 1000,
            r.labels,
            !r.utilization_colors,
            r.disk@ == "C:"@,
            r.accent@ == "blue"@,
            r.colors@ == Map::<Seq<char>, String>::empty(),
            r.theme@ == "auto"@,
            r.font_scale == Single::one(),
            !r.group_pe_cores,
            r.split_pe_cores,
            r.chart_width == 34,
            r.bar_width@ == "small"@,
            r.top_processes == 5,
            r.language@ == "auto"@,
            r.net_disabled@.len() == 0,
            r.disks_disabled@.len() == 0,
            !r.discovery,
            r.remotes@ == Map::<Seq<char>, RemoteCfg>::empty(),
            r.remotes.entries@.len() == 0,
            !r.share,
            r.share_id@ == ""@,
            r.share_name@ == ""@,
            r.share_port == crate::proto::DATA_PORT,
            r.share_token@ == ""@,
            r.mode@ == "auto"@,
    {
        let mut widgets: Vec<String> = Vec::new();
        widgets.push("cpu_bars".to_string());
        widgets.push("cpu_line".to_string());
        widgets.push("mem".to_string());
        widgets.push("gpu".to_string());
        widgets.push("net".to_string());
        widgets.push("disk".to_string());
        widgets.push("battery".to_string());
        assert(crate::text::views(widgets@) =~= default_widgets());
        Config {
            position: "right".to_string(),
            offset: 0,
            widgets,
            update_ms: 1000,
            labels: true,
            utilization_colors: false,
            disk: "C:".to_string(),
            accent: "blue".to_string(),
            colors: StrMap::new(),
            theme: "auto".to_string(),
            font_scale: Single::one(),
            group_pe_cores: false,
            split_pe_cores: true,
            chart_width: 34,
            bar_width: "small".to_string(),
            mode: "auto".to_string(),
            top_processes: 5,
            language: "auto".to_string(),
            net_disabled: Vec::new(),
            disks_disabled: Vec::new(),
            discovery: false,
            remotes: StrMap::new(),
            share: false,
            share_id: "".to_string(),
            share_name: "".to_string(),
            share_port: crate::proto::DATA_PORT,
            share_token: "".to_string(),
        }
    }
}

impl Default for RemoteCfg {
    fn default() -> (r: RemoteCfg)
        ensures
            r.id@ == ""@,
            r.name@ == ""@,
            r.address@ == ""@,
            !r.enabled,
            r.label@ == ""@,
            r.token@ == ""@,
            r.colors.wf(),
            r.colors@ == Map::<Seq<char>, String>::empty(),
            r.net_disabled@.len() == 0,
            r.disks_disabled@.len() == 0,
            r.labels,
            r.split_pe,
            !r.group_pe,
    {
        RemoteCfg {
            id: "".to_string(),
            name: "".to_string(),
            address: "".to_string(),
            enabled: false,
            label: "".to_string(),
            token: "".to_string(),
            colors: StrMap::new(),
            net_disabled: Vec::new(),
            disks_disabled: Vec::new(),
            labels: true,
            split_pe: true,
            group_pe: false,
        }
    }
}

/// The accent is the colour of its name: of the palette whatever the system's
/// is, and the system's own where that is asked for and known.
pub proof fn law_accent_is_the_named_colour(c: Config, system: Option<Color>, i: int)
    requires
        0 < i < theme::palette_list().len(),
    ensures
        c.accent@ == theme::palette_list()[i].0 ==> accent_of(c, system) == theme::palette_list()[i].2,
        c.accent@ == "system"@ && system.is_some() ==> Some(accent_of(c, system)) == system,
        theme::color_of(c.accent@, system).is_none() ==> accent_of(c, system)
            == theme::palette_list()[1].2,
{
    theme::law_names_stand_for_their_colours(i, system);
}

} // verus!
