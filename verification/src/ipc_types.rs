//! The values that the parts of the program hand to each other.

use vstd::prelude::*;
use vstd::string::*;

verus! {

/// The number of a page's view.
#[derive(Debug, Clone, Copy, PartialEq, Eq, Hash, Structural)]
pub struct ViewId(pub u32);

/// A tab as it is kept on record.
#[derive(Debug, Clone)]
pub struct Tab {
    pub id: i32,
    pub window_id: i32,
    pub url: String,
    pub title: Option<String>,
    pub favicon_id: Option<i32>,
    pub pinned: bool,
    pub muted: bool,
    pub order_key: String,
    /// How far the page is scrolled: the bits of a 64-bit floating-point number.
    pub scroll_y: u64,
    /// Seconds since 1970.
    pub last_active: Option<i64>,
    /// Seconds since 1970.
    pub created_at: i64,
}

/// A browser extension.
#[derive(Debug, Clone)]
pub struct Extension {
    pub id: String,
    pub version: String,
    pub name: String,
    pub enabled: bool,
}

/// A line of the command palette. The ranges are the parts of the title that matched, each from
/// its first character up to but not including its second.
#[derive(Debug, Clone)]
pub struct PaletteItem {
    pub id: String,
    /// `tab`, `history`, `bookmark` or `search`.
    pub item_type: String,
    pub title: String,
    pub url: String,
    pub matched_ranges: Vec<(usize, usize)>,
}

/// What the command palette offers.
#[derive(Debug, Clone)]
pub struct PaletteResults {
    pub open_tabs: Vec<PaletteItem>,
    pub history: Vec<PaletteItem>,
    pub bookmarks: Vec<PaletteItem>,
}

/// An address behind a sequence of keys.
#[derive(Debug, Clone)]
pub struct QuickLaunchItem {
    pub id: i32,
    pub target_url: String,
    pub title: Option<String>,
    pub sequence: String,
    pub disposition: String,
}

/// A page that was visited.
#[derive(Debug, Clone)]
pub struct HistoryEntry {
    pub id: i32,
    pub url: String,
    pub title: String,
    pub visit_count: i32,
    pub last_visit: i64,
}

/// A page that was kept.
#[derive(Debug, Clone)]
pub struct Bookmark {
    pub id: i32,
    pub url: String,
    pub title: String,
    pub position: i32,
}

/// An optional string once more.
pub fn copy_text(s: &Option<String>) -> (out: Option<String>)
    ensures
        out == *s,
{
    match s {
        Some(t) => Some(t.clone()),
        None => None,
    }
}

impl Extension {
    /// The same extension once more.
    pub fn copy(&self) -> (out: Extension)
        ensures
            out == *self,
    {
        Extension {
            id: self.id.clone(),
            version: self.version.clone(),
            name: self.name.clone(),
            enabled: self.enabled,
        }
    }
}

impl QuickLaunchItem {
    /// The same item once more.
    pub fn copy(&self) -> (out: QuickLaunchItem)
        ensures
            out == *self,
    {
        QuickLaunchItem {
            id: self.id,
            target_url: self.target_url.clone(),
            title: copy_text(&self.title),
            sequence: self.sequence.clone(),
            disposition: self.disposition.clone(),
        }
    }
}

impl Tab {
    /// The same tab once more.
    pub fn copy(&self) -> (out: Tab)
        ensures
            out == *self,
    {
        Tab {
            id: self.id,
            window_id: self.window_id,
            url: self.url.clone(),
            title: copy_text(&self.title),
            favicon_id: self.favicon_id,
            pinned: self.pinned,
            muted: self.muted,
            order_key: self.order_key.clone(),
            scroll_y: self.scroll_y,
            last_active: self.last_active,
            created_at: self.created_at,
        }
    }
}

} // verus!
