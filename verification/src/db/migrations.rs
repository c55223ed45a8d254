//! The layout of the record, and how it came about.

use vstd::prelude::*;

verus! {

/// The first layout.
pub const INITIAL_SCHEMA: &'static str = r#"
    CREATE TABLE tabs (
      id INTEGER PRIMARY KEY, window_id INTEGER NOT NULL DEFAULT 1,
      url TEXT NOT NULL, title TEXT, favicon_id INTEGER,
      pinned INTEGER DEFAULT 0, muted INTEGER DEFAULT 0,
      order_key TEXT NOT NULL, scroll_y REAL DEFAULT 0,
      last_active INTEGER, created_at INTEGER NOT NULL
    );
    CREATE TABLE favicons (
      id INTEGER PRIMARY KEY, host TEXT UNIQUE NOT NULL,
      png BLOB, fetched_at INTEGER NOT NULL
    );
    CREATE TABLE history (
      id INTEGER PRIMARY KEY, url TEXT UNIQUE NOT NULL,
      title TEXT, visit_count INTEGER DEFAULT 1,
      last_visit INTEGER NOT NULL, typed_count INTEGER DEFAULT 0
    );
    CREATE VIRTUAL TABLE history_fts USING fts5(
      title, url, content='history', content_rowid='id'
    );
    CREATE TRIGGER history_ai AFTER INSERT ON history BEGIN
      INSERT INTO history_fts(rowid, title, url) VALUES (new.id, new.title, new.url);
    END;
    CREATE TRIGGER history_ad AFTER DELETE ON history BEGIN
      INSERT INTO history_fts(history_fts, rowid, title, url) VALUES('delete', old.id, old.title, old.url);
    END;
    CREATE TRIGGER history_au AFTER UPDATE ON history BEGIN
      INSERT INTO history_fts(history_fts, rowid, title, url) VALUES('delete', old.id, old.title, old.url);
      INSERT INTO history_fts(rowid, title, url) VALUES (new.id, new.title, new.url);
    END;
    CREATE TABLE folders (
      id INTEGER PRIMARY KEY, name TEXT NOT NULL,
      parent_id INTEGER, created_at INTEGER NOT NULL
    );
    CREATE TABLE bookmarks (
      id INTEGER PRIMARY KEY, url TEXT NOT NULL,
      title TEXT, folder_id INTEGER, tags TEXT,
      position INTEGER DEFAULT 0, created_at INTEGER NOT NULL
    );
    CREATE TABLE settings (
      key TEXT PRIMARY KEY, value_json TEXT NOT NULL
    );
    CREATE TABLE search_engines (
      id INTEGER PRIMARY KEY, name TEXT NOT NULL,
      keyword TEXT UNIQUE NOT NULL, url_template TEXT NOT NULL
    );
    CREATE TABLE quick_launch (
      id INTEGER PRIMARY KEY, target_url TEXT NOT NULL,
      title TEXT, sequence TEXT NOT NULL, disposition TEXT NOT NULL
    );
    CREATE TABLE closed_tabs (
      id INTEGER PRIMARY KEY, window_id INTEGER NOT NULL,
      tab_json TEXT NOT NULL, closed_at INTEGER NOT NULL
    );
    CREATE TABLE sessions (
      id INTEGER PRIMARY KEY, closed_at INTEGER NOT NULL,
      tabs_json TEXT NOT NULL
    );
    "#;

/// A place for extensions.
pub const EXTENSIONS_SCHEMA: &'static str = r#"
    CREATE TABLE extensions (
      id TEXT PRIMARY KEY, version TEXT NOT NULL,
      name TEXT NOT NULL, enabled INTEGER NOT NULL DEFAULT 1
    );
    "#;

/// The search engines that come with the program.
pub const SEARCH_ENGINES: &'static str = r#"
    INSERT INTO search_engines (name, keyword, url_template) VALUES
      ('DuckDuckGo', 'd', 'https://duckduckgo.com/?q=%s'),
      ('Google', 'g', 'https://google.com/search?q=%s'),
      ('Bing', 'b', 'https://www.bing.com/search?q=%s'),
      ('Brave', 'br', 'https://search.brave.com/search?q=%s'),
      ('YouTube', 'yt', 'https://www.youtube.com/results?search_query=%s'),
      ('Wikipedia', 'w', 'https://en.wikipedia.org/wiki/Special:Search?search=%s'),
      ('GitHub', 'gh', 'https://github.com/search?q=%s');
    "#;

/// How many layouts there have been.
pub const LAYOUTS: i32 = 3;

/// A step from one layout of the record to the next.
pub struct Migration {
    /// The layout that the step leads to.
    pub version: i32,
    pub sql: &'static str,
}

/// The statements that lead to the given layout.
pub open spec fn statements(version: int) -> Seq<char> {
    if version == 1 {
        INITIAL_SCHEMA@
    } else if version == 2 {
        EXTENSIONS_SCHEMA@
    } else {
        SEARCH_ENGINES@
    }
}

/// The steps that are still to be taken from the given layout, in their order.
pub fn run_migrations(current_version: i32) -> (out: Vec<Migration>)
    ensures
        out@.len() == if current_version >= LAYOUTS {
            0
        } else if current_version < 0 {
            LAYOUTS as int
        } else {
            LAYOUTS - current_version
        },
        forall|i: int|
            0 <= i < out@.len() ==> (#[trigger] out@[i]).version == LAYOUTS - out@.len() + 1 + i,
        forall|i: int|
            0 <= i < out@.len() ==> (#[trigger] out@[i]).sql@ == statements(
                out@[i].version as int,
            ),
        out@.len() > 0 <==> current_version < 3,
        out@.len() > 0 ==> out@.last().version == 3,
        forall|i: int|
            0 <= i < out@.len() ==> current_version < (#[trigger] out@[i]).version <= 3,
{
    let mut out: Vec<Migration> = Vec::new();
    if current_version < 1 {
        out.push(Migration { version: 1, sql: INITIAL_SCHEMA });
    }
    if current_version < 2 {
        out.push(Migration { version: 2, sql: EXTENSIONS_SCHEMA });
    }
    if current_version < 3 {
        out.push(Migration { version: 3, sql: SEARCH_ENGINES });
    }
    out
}

} // verus!
