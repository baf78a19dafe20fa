//! Configuration data. Loading it from disk is a caller concern; the
//! defaults and the plugin lookup are part of the core.

use vstd::prelude::*;
use crate::strutil::str_eq;

verus! {

/// Network surface settings.
pub struct ServerConfig {
    pub host: String,
    pub port: u16,
}

/// Storage and model settings.
pub struct StorageConfig {
    pub db_path: String,
    pub model_path: String,
    pub model_type: String,
}

/// The filesystem roots to observe.
pub struct WatchConfig {
    pub paths: Vec<String>,
}

/// The daemon configuration: server, storage, watched roots, and
/// per-extension parser plugins (extension, argument vector).
pub struct Config {
    pub server: ServerConfig,
    pub storage: StorageConfig,
    pub watch: WatchConfig,
    pub plugins: Vec<(String, Vec<String>)>,
}

impl Default for Config {
    /// The built-in configuration: a local API port, a database file and
    /// model directory beside the daemon, the current directory watched,
    /// and no plugins.
    fn default() -> (c: Config)
        ensures
            c.server.host@ == "127.0.0.1"@,
            c.server.port == 3030,
            c.storage.db_path@ == "contextd.db"@,
            c.storage.model_path@ == "models"@,
            c.storage.model_type@ == "all-minilm-l6-v2"@,
            c.watch.paths@.len() == 1 && c.watch.paths@[0]@ == "."@,
            c.plugins@.len() == 0,
    {
        Config {
            server: ServerConfig { host: "127.0.0.1".to_owned(), port: 3030 },
            storage: StorageConfig {
                db_path: "contextd.db".to_owned(),
                model_path: "models".to_owned(),
                model_type: "all-minilm-l6-v2".to_owned(),
            },
            watch: WatchConfig { paths: vec![".".to_owned()] },
            plugins: Vec::new(),
        }
    }
}

impl Config {
    /// The plugin argument vector configured for an extension, if any:
    /// the first entry whose key is the extension.
    pub fn plugin_for(&self, ext: &str) -> (r: Option<&Vec<String>>)
        ensures
            r is Some <==> exists|i: int|
                0 <= i < self.plugins@.len() && (#[trigger] self.plugins@[i]).0@ == ext@,
            match r {
                Some(v) => exists|i: int|
                    {
                        &&& 0 <= i < self.plugins@.len()
                        &&& (#[trigger] self.plugins@[i]).0@ == ext@
                        &&& v@ == self.plugins@[i].1@
                        &&& forall|j: int| 0 <= j < i ==> self.plugins@[j].0@ != ext@
                    },
                None => true,
            },
    {
        let n = self.plugins.len();
        let mut i: usize = 0;
        while i < n
            invariant
                n == self.plugins@.len(),
                i <= n,
                forall|j: int| 0 <= j < i ==> (#[trigger] self.plugins@[j]).0@ != ext@,
            decreases n - i,
        {
            if str_eq(self.plugins[i].0.as_str(), ext) {
                return Some(&self.plugins[i].1);
            }
            i += 1;
        }
        None
    }
}

} // verus!
