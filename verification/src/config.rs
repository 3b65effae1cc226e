//! The configuration store: one document, read fully from the config
//! file's text once per run, addressed by dotted key paths, and written
//! back in full after every change.  The caller owns the file itself:
//! it hands `load` the file's text (or `None` when there is no file yet)
//! and writes `render`'s result back atomically after a successful
//! `set`, so that a crash can never leave a truncated file behind.

use vstd::prelude::*;

use crate::codec::lemma_render_parse_round_trip;
use crate::codec::spec_parse;
use crate::codec::spec_render;
use crate::document::ConfigDoc;
use crate::document::DocModel;
use crate::document::lemma_model_set_wf;
use crate::document::lemma_set_then_get;
use crate::document::model_empty;
use crate::document::model_get;
use crate::document::model_set;
use crate::document::model_wf;
use crate::document::path_is_dotted;
use crate::document::path_section;
use crate::errors::ConfigError;

verus! {

/// The loaded configuration: the document and the API base URL that was
/// found under `api.url` at load time, kept as a run-wide value for the
/// lifetime of one command.
#[derive(Debug)]
pub struct Config {
    /// The whole document as read from disk.
    pub doc: ConfigDoc,
    /// The value of `api.url` at the moment of loading.
    pub api_url: Option<String>,
}

impl Config {
    /// The store's invariant: the document it holds is well formed.
    pub open spec fn wf(&self) -> bool {
        model_wf(self.doc@)
    }

    /// Build the store from the config file's text; `None` stands for a
    /// file that does not exist yet, which is an empty document and not
    /// an error.  An unparseable file is `ConfigCorrupt`.
    pub fn load(content: Option<&str>) -> (r: Result<Config, ConfigError>)
        ensures
            match r {
                Ok(c) => {
                    &&& c.wf()
                    &&& match content {
                        None => c.doc@ == model_empty(),
                        Some(t) => spec_parse(t@) == Some(c.doc@),
                    }
                    &&& (c.api_url is Some <==> model_get(c.doc@, "api.url"@) is Some)
                    &&& (c.api_url matches Some(u) ==> model_get(c.doc@, "api.url"@) == Some(u@))
                },
                Err(e) => {
                    &&& e == ConfigError::ConfigCorrupt
                    &&& content matches Some(t) && spec_parse(t@) is None
                },
            },
    {
        let doc = match content {
            None => ConfigDoc::new(),
            Some(t) => match ConfigDoc::parse_text(t) {
                Ok(d) => d,
                Err(e) => {
                    return Err(e);
                },
            },
        };
        let api_url = doc.get("api.url");
        Ok(Config { doc, api_url })
    }

    /// Read the value at a dotted key path; absence is `None`, never an
    /// error.
    pub fn get(&self, key: &str) -> (r: Option<String>)
        ensures
            r is Some <==> model_get(self.doc@, key@) is Some,
            r matches Some(s) ==> model_get(self.doc@, key@) == Some(s@),
    {
        self.doc.get(key)
    }

    /// Write a value at a dotted key path.  On success the document
    /// holds the new leaf and everything else is preserved; a dotted
    /// write onto a name bound to a scalar fails with
    /// `ConfigStructureInvalid` and leaves the document unchanged.
    pub fn set(&mut self, key: &str, value: &str) -> (r: Result<(), ConfigError>)
        requires
            old(self).wf(),
        ensures
            final(self).wf(),
            final(self).api_url == old(self).api_url,
            match model_set(old(self).doc@, key@, value@) {
                Some(d) => r is Ok && final(self).doc@ == d,
                None => r == Err::<(), ConfigError>(ConfigError::ConfigStructureInvalid)
                    && final(self).doc@ == old(self).doc@,
            },
    {
        let r = self.doc.set(key, value);
        proof {
            if model_set(old(self).doc@, key@, value@) is Some {
                lemma_model_set_wf(old(self).doc@, key@, value@);
            }
        }
        r
    }

    /// The whole document as the text to write back to the config file.
    pub fn render(&self) -> (r: String)
        ensures
            r@ == spec_render(self.doc@),
    {
        self.doc.render()
    }
}


/// One recorded write: a dotted key path and the value put there.
pub type WriteOp = (Seq<char>, Seq<char>);

/// The document after a whole sequence of writes, in order; `None` as
/// soon as any write is refused.
pub open spec fn apply_writes(d: DocModel, ws: Seq<WriteOp>) -> Option<DocModel>
    decreases ws.len(),
{
    if ws.len() == 0 {
        Some(d)
    } else {
        match model_set(d, ws[0].0, ws[0].1) {
            Some(d2) => apply_writes(d2, ws.drop_first()),
            None => None,
        }
    }
}

/// The value of the last write at `path` in the sequence, if any.
pub open spec fn last_write(ws: Seq<WriteOp>, path: Seq<char>) -> Option<Seq<char>>
    decreases ws.len(),
{
    if ws.len() == 0 {
        None
    } else {
        match last_write(ws.drop_first(), path) {
            Some(v) => Some(v),
            None => if ws[0].0 == path {
                Some(ws[0].1)
            } else {
                None
            },
        }
    }
}

/// Whether one write erases what `path` reads through: a bare write of
/// the very section name a dotted `path` addresses.
pub open spec fn displaces(w: WriteOp, path: Seq<char>) -> bool {
    path_is_dotted(path) && !path_is_dotted(w.0) && w.0 == path_section(path)
}

/// No write made after the last write of `path` displaces its section.
/// A displacing write is harmless when `path` is written again later.
pub open spec fn no_late_displacement(ws: Seq<WriteOp>, path: Seq<char>) -> bool
    decreases ws.len(),
{
    if ws.len() == 0 {
        true
    } else {
        no_late_displacement(ws.drop_first(), path) && (last_write(ws.drop_first(), path) is Some
            || !displaces(ws[0], path))
    }
}

/// LAW.  For any sequence of successful writes followed by a save and a
/// load, reading any path returns the last value written at that path,
/// unchanged; a path the sequence never wrote still reads the value it
/// had before, as set in prior sessions.  The one exception is a path
/// whose section a later bare write displaced without the path being
/// written again.
pub proof fn lemma_write_sequence_round_trip(d: DocModel, ws: Seq<WriteOp>, path: Seq<char>)
    requires
        model_wf(d),
        apply_writes(d, ws) is Some,
        no_late_displacement(ws, path),
    ensures
        ({
            let d2 = apply_writes(d, ws).unwrap();
            &&& model_wf(d2)
            &&& spec_parse(spec_render(d2)) == Some(d2)
            &&& model_get(d2, path) == match last_write(ws, path) {
                Some(v) => Some(v),
                None => model_get(d, path),
            }
        }),
    decreases ws.len(),
{
    if ws.len() == 0 {
        lemma_render_parse_round_trip(d);
    } else {
        let d1 = model_set(d, ws[0].0, ws[0].1).unwrap();
        lemma_model_set_wf(d, ws[0].0, ws[0].1);
        lemma_write_sequence_round_trip(d1, ws.drop_first(), path);
        if last_write(ws.drop_first(), path) is None {
            if ws[0].0 == path {
                lemma_set_then_get(d, path, ws[0].1);
            } else {
                crate::document::lemma_set_preserves_other(d, path, ws[0].0, ws[0].1);
            }
        }
    }
}


/// LAW.  For any well-formed document, writing a value, saving the
/// whole document and loading it back returns exactly the document that
/// was saved, and reading the written path returns the value written.
/// Together with the write-isolation law of the document this is the
/// full round trip: the last value set for each path survives a
/// save-and-load cycle unchanged, and untouched paths keep their values.
pub proof fn lemma_set_persist_round_trip(d: DocModel, path: Seq<char>, value: Seq<char>)
    requires
        model_wf(d),
        model_set(d, path, value) is Some,
    ensures
        ({
            let d2 = model_set(d, path, value).unwrap();
            spec_parse(spec_render(d2)) == Some(d2) && model_get(d2, path) == Some(value)
        }),
{
    lemma_model_set_wf(d, path, value);
    lemma_render_parse_round_trip(model_set(d, path, value).unwrap());
    lemma_set_then_get(d, path, value);
}


/// LAW.  A value written in a prior session survives an unrelated write
/// and a save-and-load cycle: after writing one path, persisting and
/// reloading, every other path reads as it did before.  The one
/// exception is a bare write that takes over the very section the other
/// path reads through.
pub proof fn lemma_untouched_path_survives(
    d: DocModel,
    read_path: Seq<char>,
    write_path: Seq<char>,
    value: Seq<char>,
)
    requires
        model_wf(d),
        model_set(d, write_path, value) is Some,
        read_path != write_path,
        !(!crate::document::path_is_dotted(write_path) && crate::document::path_is_dotted(
            read_path,
        ) && crate::document::path_section(read_path) == write_path),
    ensures
        ({
            let d2 = model_set(d, write_path, value).unwrap();
            spec_parse(spec_render(d2)) == Some(d2) && model_get(d2, read_path) == model_get(
                d,
                read_path,
            )
        }),
{
    lemma_model_set_wf(d, write_path, value);
    lemma_render_parse_round_trip(model_set(d, write_path, value).unwrap());
    crate::document::lemma_set_preserves_other(d, read_path, write_path, value);
}

} // verus!
