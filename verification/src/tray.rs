//! The tray menu: its entries and what choosing one does.

use vstd::prelude::*;

use crate::text::{chars_of, range_is};

verus! {

/// What choosing a tray menu entry asks for.
pub enum TrayAction {
    ShowWindow,
    Quit,
    Disconnect,
    Connect(u8),
    Ignore,
}

/// The action of the menu entry with id `id`.
pub open spec fn action_of(id: Seq<char>) -> TrayAction {
    if id == "show"@ {
        TrayAction::ShowWindow
    } else if id == "quit"@ {
        TrayAction::Quit
    } else if id == "disconnect"@ {
        TrayAction::Disconnect
    } else if id == "connect1"@ {
        TrayAction::Connect(1)
    } else if id == "connect2"@ {
        TrayAction::Connect(2)
    } else if id == "connect3"@ {
        TrayAction::Connect(3)
    } else {
        TrayAction::Ignore
    }
}

/// Whether `s` is exactly `lit`.
pub fn str_is(s: &str, lit: &str) -> (r: bool)
    ensures
        r == (s@ == lit@),
{
    let v = chars_of(s);
    let l = chars_of(lit);
    assert(v@.subrange(0, v@.len() as int) =~= v@);
    range_is(&v, 0, v.len(), &l)
}

/// The action of a menu entry (see `action_of`).
pub fn tray_action(id: &str) -> (a: TrayAction)
    ensures
        a == action_of(id@),
{
    if str_is(id, "show") {
        TrayAction::ShowWindow
    } else if str_is(id, "quit") {
        TrayAction::Quit
    } else if str_is(id, "disconnect") {
        TrayAction::Disconnect
    } else if str_is(id, "connect1") {
        TrayAction::Connect(1)
    } else if str_is(id, "connect2") {
        TrayAction::Connect(2)
    } else if str_is(id, "connect3") {
        TrayAction::Connect(3)
    } else {
        TrayAction::Ignore
    }
}

/// An entry of the tray menu.
pub struct MenuEntry {
    pub id: String,
    pub label: String,
}

/// The ids of the tray menu, in the order it shows them.
pub open spec fn menu_ids() -> Seq<Seq<char>> {
    seq!["connect1"@, "connect2"@, "connect3"@, "disconnect"@, "show"@, "quit"@]
}

/// The labels of the tray menu, in the order it shows them.
pub open spec fn menu_labels() -> Seq<Seq<char>> {
    seq![
        "Connect Server 1"@,
        "Connect Server 2"@,
        "Connect Server 3"@,
        "Disconnect"@,
        "Show Window"@,
        "Quit"@,
    ]
}

/// A menu entry.
fn entry(id: &str, label: &str) -> (e: MenuEntry)
    ensures
        e.id@ == id@,
        e.label@ == label@,
{
    MenuEntry { id: String::from_str(id), label: String::from_str(label) }
}

/// The entries of the tray menu; every one of them asks for an action.
pub fn tray_menu() -> (m: Vec<MenuEntry>)
    ensures
        m@.len() == menu_ids().len(),
        forall|i: int| 0 <= i < m@.len() ==> (#[trigger] m@[i]).id@ == menu_ids()[i],
        forall|i: int| 0 <= i < m@.len() ==> (#[trigger] m@[i]).label@ == menu_labels()[i],
        forall|i: int| 0 <= i < m@.len() ==> !(action_of(#[trigger] m@[i].id@) is Ignore),
{
    let mut m: Vec<MenuEntry> = Vec::new();
    m.push(entry("connect1", "Connect Server 1"));
    m.push(entry("connect2", "Connect Server 2"));
    m.push(entry("connect3", "Connect Server 3"));
    m.push(entry("disconnect", "Disconnect"));
    m.push(entry("show", "Show Window"));
    m.push(entry("quit", "Quit"));
    m
}

} // verus!
