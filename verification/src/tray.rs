//! The tray icon. The daemon has no window of its own; without an icon it would be
//! invisible: whether it runs, when it rings next, where the settings are.
//!
//! This is what the icon shows and offers; putting it on the StatusNotifierItem bus is
//! left to the program around the library.

use vstd::prelude::*;
use vstd::string::StringExecFns;

verus! {

/// The state the tray icon shows; the real state lives in the daemon.
pub struct AlarmTray {
    /// When the next alarm rings, e.g. "下次 周三 13:30"; "没有闹钟" without any.
    pub next_fire: String,
}

/// What a click on the tray asks for.
#[derive(PartialEq, Eq, Structural, Clone, Copy, Debug)]
pub enum TrayAction {
    /// Bring up the settings window.
    OpenSettings,
    /// Stop the daemon.
    Quit,
}

/// One entry of the tray's menu.
pub enum TrayMenuItem {
    /// Text that cannot be clicked.
    Info { label: String },
    /// A separating line.
    Separator,
    /// An entry that does something.
    Action { label: String, action: TrayAction },
}

/// The mathematical content of a [`TrayMenuItem`].
pub enum TrayMenuItemView {
    Info { label: Seq<char> },
    Separator,
    Action { label: Seq<char>, action: TrayAction },
}

impl View for TrayMenuItem {
    type V = TrayMenuItemView;

    open spec fn view(&self) -> TrayMenuItemView {
        match self {
            TrayMenuItem::Info { label } => TrayMenuItemView::Info { label: label@ },
            TrayMenuItem::Separator => TrayMenuItemView::Separator,
            TrayMenuItem::Action { label, action } => TrayMenuItemView::Action {
                label: label@,
                action: *action,
            },
        }
    }
}

/// The tool tip: a title and a description.
pub struct TrayToolTip {
    pub title: String,
    pub description: String,
}

/// The menu for a tray whose next ring is described by `next_fire`: that description,
/// greyed out; a separator; the settings; quitting.
pub open spec fn tray_menu(next_fire: Seq<char>) -> Seq<TrayMenuItemView> {
    seq![
        TrayMenuItemView::Info { label: next_fire },
        TrayMenuItemView::Separator,
        TrayMenuItemView::Action { label: "设置"@, action: TrayAction::OpenSettings },
        TrayMenuItemView::Action { label: "退出"@, action: TrayAction::Quit },
    ]
}

impl AlarmTray {
    /// The identifier the tray host knows this icon by.
    pub fn id(&self) -> (id: String)
        ensures
            id@ == "nap-alarm"@,
    {
        String::from_str("nap-alarm")
    }

    /// The icon's title.
    pub fn title(&self) -> (title: String)
        ensures
            title@ == "闹钟"@,
    {
        String::from_str("闹钟")
    }

    /// A left click on the icon opens the settings: an icon that does nothing when clicked
    /// looks like a hung program.
    pub fn activate(&self) -> (action: TrayAction)
        ensures
            action == TrayAction::OpenSettings,
    {
        TrayAction::OpenSettings
    }

    /// The tool tip: the title, and when the next alarm rings.
    pub fn tool_tip(&self) -> (tip: TrayToolTip)
        ensures
            tip.title@ == "闹钟"@,
            tip.description@ == self.next_fire@,
    {
        TrayToolTip { title: String::from_str("闹钟"), description: self.next_fire.clone() }
    }

    /// The right-click menu.
    pub fn menu(&self) -> (items: Vec<TrayMenuItem>)
        ensures
            items@.map_values(|i: TrayMenuItem| i@) == tray_menu(self.next_fire@),
    {
        let mut items: Vec<TrayMenuItem> = Vec::new();
        items.push(TrayMenuItem::Info { label: self.next_fire.clone() });
        items.push(TrayMenuItem::Separator);
        items.push(
            TrayMenuItem::Action { label: String::from_str("设置"), action: TrayAction::OpenSettings },
        );
        items.push(TrayMenuItem::Action { label: String::from_str("退出"), action: TrayAction::Quit });
        proof {
            assert(items@.map_values(|i: TrayMenuItem| i@) =~= tray_menu(self.next_fire@));
        }
        items
    }
}

/// Side of the tray icon in pixels.
pub const ICON_SIZE: usize = 32;

/// Byte `c` (0 for alpha, then red, green, blue) of a white pixel of opacity `alpha`; a
/// pixel that nothing covers is all zero.
pub open spec fn pixel_byte(alpha: u8, c: int) -> u8 {
    if alpha == 0 {
        0
    } else if c == 0 {
        alpha
    } else {
        255
    }
}

/// The icon as ARGB32 bytes in network order (alpha, red, green, blue per pixel), white
/// drawn with the opacity `alpha` gives for each pixel, row by row.
pub fn pack_icon(alpha: &Vec<u8>) -> (data: Vec<u8>)
    requires
        alpha.len() * 4 <= usize::MAX,
    ensures
        data.len() == 4 * alpha.len(),
        forall|k: int| 0 <= k < data.len() ==> data[k] == pixel_byte(alpha[k / 4], k % 4),
{
    let mut data: Vec<u8> = Vec::new();
    let mut i: usize = 0;
    while i < alpha.len()
        invariant
            i <= alpha.len(),
            alpha.len() * 4 <= usize::MAX,
            data.len() == 4 * i,
            forall|k: int| 0 <= k < data.len() ==> data[k] == pixel_byte(alpha[k / 4], k % 4),
        decreases alpha.len() - i,
    {
        let a = alpha[i];
        if a == 0 {
            data.push(0);
            data.push(0);
            data.push(0);
            data.push(0);
        } else {
            data.push(a);
            data.push(255);
            data.push(255);
            data.push(255);
        }
        proof {
            let b = 4 * i as int;
            assert(b / 4 == i && (b + 1) / 4 == i && (b + 2) / 4 == i && (b + 3) / 4 == i);
            assert(b % 4 == 0 && (b + 1) % 4 == 1 && (b + 2) % 4 == 2 && (b + 3) % 4 == 3);
        }
        i = i + 1;
    }
    data
}

} // verus!
