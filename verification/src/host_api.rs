//! The capability-gated host API: the only channel through which an
//! extension touches files, storage, events, commands or notifications.
//! Every operation first checks the invoking extension's granted capability
//! set through one central gate; a violation is a `Forbidden` error naming
//! the extension and the missing capability, never a silent no-op. File
//! reads and writes themselves are delegated to the file-access collaborator
//! that owns the I/O; this layer decides, filters and assembles.

use vstd::prelude::*;
use crate::bus::{Command, Event, EventBus, EventType, subs_for};
use crate::plugin::{PluginCapability, PluginContext};
use crate::storage::PluginStorage;
use crate::strutil::{self, dec_str, seq_views};

verus! {

/// What the HTML rendering of CommonMark text is; pulldown-cmark computes
/// it from the input text alone.
pub uninterp spec fn html_of(markdown: Seq<char>) -> Seq<char>;

/// Relies on pulldown-cmark's `Parser::new` and `html::push_html`: renders
/// CommonMark text to HTML, a pure function of the text.
#[verifier::external_body]
fn markdown_to_html(markdown: &str) -> (r: String)
    ensures
        r@ == html_of(markdown@),
{
    let parser = pulldown_cmark::Parser::new(markdown);
    let mut html_output = String::new();
    pulldown_cmark::html::push_html(&mut html_output, parser);
    html_output
}

/// Why a host-API call failed.
#[derive(Debug)]
pub enum ApiError {
    /// The extension has not been granted the capability the call needs.
    Forbidden { plugin_id: String, capability: PluginCapability },
    /// The operation is not implemented; it fails rather than fabricate data.
    Unimplemented { feature: String },
    /// The input could not be parsed.
    InvalidInput { message: String },
}

impl ApiError {
    /// A human-readable description of the failure.
    pub fn message(&self) -> (r: String)
        ensures
            (*self) matches ApiError::Forbidden { plugin_id, capability } ==> r@ == "Plugin "@
                + plugin_id@ + " does not have the required capability"@,
            (*self) matches ApiError::Unimplemented { feature } ==> r@ == feature@
                + " not yet implemented"@,
            (*self) matches ApiError::InvalidInput { message } ==> r@ == "Invalid input: "@
                + message@,
    {
        match self {
            ApiError::Forbidden { plugin_id, capability: _ } => {
                let mut m = String::new();
                m.append("Plugin ");
                m.append(plugin_id.as_str());
                m.append(" does not have the required capability");
                m
            },
            ApiError::Unimplemented { feature } => {
                let mut m = String::new();
                m.append(feature.as_str());
                m.append(" not yet implemented");
                m
            },
            ApiError::InvalidInput { message } => {
                let mut m = String::new();
                m.append("Invalid input: ");
                m.append(message.as_str());
                m
            },
        }
    }
}

/// Lowercase hexadecimal digit.
pub open spec fn hex_char(d: nat) -> char {
    if d < 10 {
        ((48 + d) as u8) as char
    } else {
        ((87 + d) as u8) as char
    }
}

/// JSON string escaping of one character: quotes, backslashes and control
/// characters are escaped, everything else stands as itself.
pub open spec fn esc_char(c: char) -> Seq<char> {
    if c == '"' {
        seq!['\\', '"']
    } else if c == '\\' {
        seq!['\\', '\\']
    } else if c == '\n' {
        seq!['\\', 'n']
    } else if c == '\r' {
        seq!['\\', 'r']
    } else if c == '\t' {
        seq!['\\', 't']
    } else if (c as int) < 32 {
        let hi = hex_char(((c as int) / 16) as nat);
        let lo = hex_char(((c as int) % 16) as nat);
        seq!['\\', 'u', '0', '0', hi, lo]
    } else {
        seq![c]
    }
}

/// JSON string escaping of a whole string.
pub open spec fn json_escaped(s: Seq<char>) -> Seq<char>
    decreases s.len(),
{
    if s.len() == 0 {
        Seq::empty()
    } else {
        json_escaped(s.drop_last()) + esc_char(s.last())
    }
}

/// Escape a string for inclusion in a JSON document.
pub fn json_escape(s: &str) -> (r: String)
    ensures
        r@ == json_escaped(s@),
{
    let n: usize = s.unicode_len();
    let mut out = String::new();
    let mut i: usize = 0;
    proof {
        assert(out@ =~= json_escaped(s@.take(0)));
    }
    while i < n
        invariant
            0 <= i <= n,
            n == s@.len(),
            out@ == json_escaped(s@.take(i as int)),
        decreases n - i,
    {
        proof {
            assert(s@.take(i + 1).drop_last() =~= s@.take(i as int));
            assert(s@.take(i + 1).last() == s@[i as int]);
        }
        let c = s.get_char(i);
        let ghost opre = out@;
        if c == '"' {
            strutil::push_char(&mut out, '\\');
            strutil::push_char(&mut out, '"');
            proof {
                assert(out@ =~= opre + esc_char(c));
            }
        } else if c == '\\' {
            strutil::push_char(&mut out, '\\');
            strutil::push_char(&mut out, '\\');
            proof {
                assert(out@ =~= opre + esc_char(c));
            }
        } else if c == '\n' {
            strutil::push_char(&mut out, '\\');
            strutil::push_char(&mut out, 'n');
            proof {
                assert(out@ =~= opre + esc_char(c));
            }
        } else if c == '\r' {
            strutil::push_char(&mut out, '\\');
            strutil::push_char(&mut out, 'r');
            proof {
                assert(out@ =~= opre + esc_char(c));
            }
        } else if c == '\t' {
            strutil::push_char(&mut out, '\\');
            strutil::push_char(&mut out, 't');
            proof {
                assert(out@ =~= opre + esc_char(c));
            }
        } else if (c as u32) < 32 {
            strutil::push_char(&mut out, '\\');
            strutil::push_char(&mut out, 'u');
            strutil::push_char(&mut out, '0');
            strutil::push_char(&mut out, '0');
            let hi: u32 = (c as u32) / 16;
            let lo: u32 = (c as u32) % 16;
            let hc: char = if hi < 10 {
                (48 + hi as u8) as char
            } else {
                (87 + hi as u8) as char
            };
            let lc: char = if lo < 10 {
                (48 + lo as u8) as char
            } else {
                (87 + lo as u8) as char
            };
            strutil::push_char(&mut out, hc);
            strutil::push_char(&mut out, lc);
            proof {
                assert(hc == hex_char((c as int / 16) as nat));
                assert(lc == hex_char((c as int % 16) as nat));
                assert(out@ =~= opre + esc_char(c));
            }
        } else {
            strutil::push_char(&mut out, c);
            proof {
                assert(out@ =~= opre + esc_char(c));
            }
        }
        i = i + 1;
    }
    proof {
        assert(s@.take(n as int) =~= s@);
    }
    out
}

/// The payload document of a transient notice.
pub open spec fn notice_payload(message: Seq<char>, duration: u32) -> Seq<char> {
    "{\"message\":\""@ + json_escaped(message) + "\",\"duration\":"@ + dec_str(duration as nat)
        + "}"@
}

/// The payload document of an extension-to-extension message; the message
/// body is itself a JSON document and is embedded as it stands.
pub open spec fn message_payload(from: Seq<char>, to: Seq<char>, message: Seq<char>) -> Seq<char> {
    "{\"from\":\""@ + json_escaped(from) + "\",\"to\":\""@ + json_escaped(to) + "\",\"message\":"@
        + message + "}"@
}

/// `p` occurs as a contiguous substring of `s` at position `i`.
pub open spec fn is_substring_at(s: Seq<char>, p: Seq<char>, i: int) -> bool {
    0 <= i && i + p.len() <= s.len() && s.subrange(i, i + p.len()) == p
}

/// `p` occurs somewhere in `s`.
pub open spec fn spec_contains(s: Seq<char>, p: Seq<char>) -> bool {
    exists|i: int| is_substring_at(s, p, i)
}

/// Substring search.
pub fn str_contains(s: &str, p: &str) -> (r: bool)
    ensures
        r == spec_contains(s@, p@),
{
    let n: usize = s.unicode_len();
    let m: usize = p.unicode_len();
    if m == 0 {
        proof {
            assert(s@.subrange(0, 0) =~= p@);
            assert(is_substring_at(s@, p@, 0));
        }
        return true;
    }
    if m > n {
        proof {
            if spec_contains(s@, p@) {
                let i = choose|i: int| is_substring_at(s@, p@, i);
            }
        }
        return false;
    }
    let mut i: usize = 0;
    while i <= n - m
        invariant
            0 <= i <= n - m + 1,
            1 <= m <= n,
            n == s@.len(),
            m == p@.len(),
            forall|k: int| 0 <= k < i ==> !is_substring_at(s@, p@, k),
        decreases n - m + 1 - i,
    {
        let mut j: usize = 0;
        let mut matched = true;
        while j < m
            invariant
                0 <= j <= m,
                0 <= i <= n - m,
                n == s@.len(),
                m == p@.len(),
                matched ==> forall|k: int| 0 <= k < j ==> s@[i + k] == p@[k],
                !matched ==> !is_substring_at(s@, p@, i as int),
            decreases m - j,
        {
            if matched && s.get_char(i + j) != p.get_char(j) {
                proof {
                    if is_substring_at(s@, p@, i as int) {
                        assert(s@.subrange(i as int, i + m)[j as int] == p@[j as int]);
                    }
                }
                matched = false;
            }
            j = j + 1;
        }
        if matched {
            proof {
                assert(s@.subrange(i as int, i + m) =~= p@);
                assert(is_substring_at(s@, p@, i as int));
            }
            return true;
        }
        i = i + 1;
    }
    proof {
        if spec_contains(s@, p@) {
            let k = choose|k: int| is_substring_at(s@, p@, k);
            assert(k <= n - m);
        }
    }
    false
}

/// The files kept by an optional substring filter, in order.
pub open spec fn filtered_files(fs: Seq<Seq<char>>, pat: Option<Seq<char>>) -> Seq<Seq<char>>
    decreases fs.len(),
{
    if fs.len() == 0 {
        Seq::empty()
    } else {
        filtered_files(fs.drop_last(), pat) + if pat is None || spec_contains(
            fs.last(),
            pat->0,
        ) {
            seq![fs.last()]
        } else {
            Seq::empty()
        }
    }
}

/// A capability-scoped handle on the host, constructed per load: all calls
/// are checked against the granted capabilities in its context.
pub struct PluginApi {
    pub context: PluginContext,
}

impl PluginApi {
    /// Wrap a per-load context.
    pub fn new(context: PluginContext) -> (r: Self)
        ensures
            r.context@ == context@,
    {
        PluginApi { context }
    }

    /// The context this handle was constructed with.
    pub fn get_context(&self) -> (r: &PluginContext)
        ensures
            r@ == self.context@,
    {
        &self.context
    }

    /// The central gate: succeeds exactly when the invoking extension has
    /// been granted the capability, and otherwise names the extension and
    /// the missing capability.
    pub fn check_capability(&self, capability: PluginCapability) -> (r: Result<(), ApiError>)
        ensures
            r is Ok <==> self.context@.capabilities.contains(capability),
            r is Err ==> (r matches Err(ApiError::Forbidden { plugin_id: p, capability: c }) && p@
                == self.context@.plugin_id && c == capability),
    {
        if !self.context.has_capability(capability) {
            return Err(
                ApiError::Forbidden { plugin_id: self.context.plugin_id.clone(), capability },
            );
        }
        Ok(())
    }

    /// Authorize reading a vault file: the file-access collaborator that
    /// owns the I/O (and its own path-traversal and existence checks) acts
    /// only after this gate passes.
    pub fn authorize_file_read(&self) -> (r: Result<(), ApiError>)
        ensures
            r is Ok <==> self.context@.capabilities.contains(PluginCapability::ReadFiles),
            r is Err ==> (r matches Err(ApiError::Forbidden { plugin_id: p, capability: c }) && p@
                == self.context@.plugin_id && c == PluginCapability::ReadFiles),
    {
        self.check_capability(PluginCapability::ReadFiles)
    }

    /// Authorize writing a vault file.
    pub fn authorize_file_write(&self) -> (r: Result<(), ApiError>)
        ensures
            r is Ok <==> self.context@.capabilities.contains(PluginCapability::WriteFiles),
            r is Err ==> (r matches Err(ApiError::Forbidden { plugin_id: p, capability: c }) && p@
                == self.context@.plugin_id && c == PluginCapability::WriteFiles),
    {
        self.check_capability(PluginCapability::WriteFiles)
    }

    /// Authorize deleting a vault file.
    pub fn authorize_file_delete(&self) -> (r: Result<(), ApiError>)
        ensures
            r is Ok <==> self.context@.capabilities.contains(PluginCapability::DeleteFiles),
            r is Err ==> (r matches Err(ApiError::Forbidden { plugin_id: p, capability: c }) && p@
                == self.context@.plugin_id && c == PluginCapability::DeleteFiles),
    {
        self.check_capability(PluginCapability::DeleteFiles)
    }

    /// Filter a vault file listing by an optional substring pattern. The
    /// listing itself comes from the file-access collaborator; this call
    /// gates it on the read-files capability and applies the filter.
    pub fn list_files(&self, files: &Vec<String>, pattern: Option<&str>) -> (r: Result<
        Vec<String>,
        ApiError,
    >)
        ensures
            r is Ok <==> self.context@.capabilities.contains(PluginCapability::ReadFiles),
            r is Err ==> (r matches Err(ApiError::Forbidden { plugin_id: p, capability: c }) && p@
                == self.context@.plugin_id && c == PluginCapability::ReadFiles),
            r is Ok ==> seq_views(r->Ok_0@) == filtered_files(
                seq_views(files@),
                match pattern {
                    Option::Some(p) => Option::Some(p@),
                    Option::None => Option::None,
                },
            ),
    {
        let ghost pat: Option<Seq<char>> = match pattern {
            Option::Some(p) => Option::Some(p@),
            Option::None => Option::None,
        };
        match self.check_capability(PluginCapability::ReadFiles) {
            Ok(()) => {},
            Err(e) => {
                return Err(e);
            },
        }
        let ghost fsv = seq_views(files@);
        let mut out: Vec<String> = Vec::new();
        let mut i: usize = 0;
        proof {
            assert(seq_views(out@) =~= Seq::<Seq<char>>::empty());
            assert(filtered_files(fsv.take(0), pat) =~= Seq::<Seq<char>>::empty());
        }
        while i < files.len()
            invariant
                0 <= i <= files@.len(),
                fsv == seq_views(files@),
                fsv.len() == files@.len(),
                pat == (match pattern {
                    Option::Some(p) => Option::Some(p@),
                    Option::None => Option::<Seq<char>>::None,
                }),
                seq_views(out@) == filtered_files(fsv.take(i as int), pat),
            decreases files@.len() - i,
        {
            proof {
                assert(fsv.take(i + 1).drop_last() =~= fsv.take(i as int));
                assert(fsv.take(i + 1).last() == fsv[i as int]);
                assert(fsv[i as int] == files@[i as int]@);
            }
            let keep = match pattern {
                Option::Some(p) => str_contains(files[i].as_str(), p),
                Option::None => true,
            };
            proof {
                assert(keep == (pat is None || spec_contains(fsv[i as int], pat->0)));
            }
            if keep {
                let ghost opre = seq_views(out@);
                let ghost vpre = out@;
                let c = files[i].clone();
                proof {
                    assert(c@ == files@[i as int]@);
                }
                out.push(c);
                proof {
                    let opost = seq_views(out@);
                    let f1 = filtered_files(fsv.take(i + 1), pat);
                    assert(f1 == filtered_files(fsv.take(i as int), pat) + seq![fsv[i as int]]);
                    assert forall|k: int| 0 <= k < opost.len() implies #[trigger] opost[k]
                        == f1[k] by {
                        assert(opost[k] == out@[k]@);
                        if k < vpre.len() {
                            assert(out@[k] == vpre[k]);
                            assert(opre[k] == vpre[k]@);
                        }
                    }
                    assert(opost =~= f1);
                }
            } else {
                proof {
                    assert(filtered_files(fsv.take(i + 1), pat) =~= filtered_files(
                        fsv.take(i as int),
                        pat,
                    ));
                }
            }
            i = i + 1;
        }
        proof {
            assert(fsv.take(fsv.len() as int) =~= fsv);
        }
        Ok(out)
    }

    /// Subscribe to an event type on behalf of this extension.
    pub fn on_event(&self, bus: &mut EventBus, event_type: EventType) -> (r: Result<
        String,
        ApiError,
    >)
        requires
            old(bus).wf(),
            old(bus).next_id < u64::MAX,
        ensures
            final(bus).wf(),
            r matches Ok(id) && {
                &&& final(bus).subs() == old(bus).subs().push((id@, event_type))
                &&& final(bus).commands() == old(bus).commands()
                &&& forall|k: int|
                    0 <= k < old(bus).subs().len() ==> (#[trigger] old(bus).subs()[k]).0 != id@
            },
    {
        Ok(bus.subscribe(event_type))
    }

    /// Emit an event: the result names the subscribers to deliver to, in
    /// subscription order within the event's type.
    pub fn emit_event(&self, bus: &EventBus, event: &Event) -> (r: Result<Vec<String>, ApiError>)
        ensures
            r matches Ok(ids) && seq_views(ids@) == subs_for(bus.subs(), event.event_type),
    {
        Ok(bus.emit(event))
    }

    /// Drop a subscription by id; an unknown id is a no-op, never an error.
    pub fn off_event(&self, bus: &mut EventBus, subscription_id: &str) -> (r: Result<(), ApiError>)
        requires
            old(bus).wf(),
        ensures
            final(bus).wf(),
            r is Ok,
            final(bus).subs() == crate::bus::subs_without(old(bus).subs(), subscription_id@),
            final(bus).commands() == old(bus).commands(),
    {
        bus.unsubscribe(subscription_id);
        Ok(())
    }

    /// Read a key from this extension's own storage namespace.
    pub fn storage_get(&self, storage: &PluginStorage, key: &str) -> (r: Result<
        Option<String>,
        ApiError,
    >)
        requires
            storage.wf(),
        ensures
            r is Ok <==> self.context@.capabilities.contains(PluginCapability::Storage),
            r is Err ==> (r matches Err(ApiError::Forbidden { plugin_id: p, capability: c }) && p@
                == self.context@.plugin_id && c == PluginCapability::Storage),
            r matches Ok(v) ==> {
                &&& v is Some <==> storage.view_map().contains_key(self.context@.plugin_id)
                    && storage.view_map()[self.context@.plugin_id].contains_key(key@)
                &&& v is Some ==> v->0@ == storage.view_map()[self.context@.plugin_id][key@]
            },
    {
        match self.check_capability(PluginCapability::Storage) {
            Ok(()) => {},
            Err(e) => {
                return Err(e);
            },
        }
        Ok(storage.get(self.context.plugin_id.as_str(), key))
    }

    /// Write a key in this extension's own storage namespace; no other
    /// extension's namespace changes.
    pub fn storage_set(&self, storage: &mut PluginStorage, key: &str, value: String) -> (r: Result<
        (),
        ApiError,
    >)
        requires
            old(storage).wf(),
        ensures
            final(storage).wf(),
            r is Ok <==> self.context@.capabilities.contains(PluginCapability::Storage),
            r is Err ==> (r matches Err(ApiError::Forbidden { plugin_id: p, capability: c }) && p@
                == self.context@.plugin_id && c == PluginCapability::Storage) && *final(storage)
                == *old(storage),
            r is Ok && old(storage).view_map().contains_key(self.context@.plugin_id) ==> final(storage).view_map() == old(storage).view_map().insert(
                self.context@.plugin_id,
                old(storage).view_map()[self.context@.plugin_id].insert(key@, value@),
            ),
            r is Ok && !old(storage).view_map().contains_key(self.context@.plugin_id) ==> final(storage).view_map() == old(storage).view_map().insert(
                self.context@.plugin_id,
                Map::<Seq<char>, Seq<char>>::empty().insert(key@, value@),
            ),
    {
        match self.check_capability(PluginCapability::Storage) {
            Ok(()) => {},
            Err(e) => {
                return Err(e);
            },
        }
        storage.set(self.context.plugin_id.as_str(), key, value);
        Ok(())
    }

    /// Delete a key from this extension's own storage namespace.
    pub fn storage_delete(&self, storage: &mut PluginStorage, key: &str) -> (r: Result<
        (),
        ApiError,
    >)
        requires
            old(storage).wf(),
        ensures
            final(storage).wf(),
            r is Ok <==> self.context@.capabilities.contains(PluginCapability::Storage),
            r is Err ==> (r matches Err(ApiError::Forbidden { plugin_id: p, capability: c }) && p@
                == self.context@.plugin_id && c == PluginCapability::Storage) && *final(storage)
                == *old(storage),
            r is Ok && old(storage).view_map().contains_key(self.context@.plugin_id) ==> final(storage).view_map() == old(storage).view_map().insert(
                self.context@.plugin_id,
                old(storage).view_map()[self.context@.plugin_id].remove(key@),
            ),
            r is Ok && !old(storage).view_map().contains_key(self.context@.plugin_id) ==> final(storage).view_map() == old(storage).view_map(),
    {
        match self.check_capability(PluginCapability::Storage) {
            Ok(()) => {},
            Err(e) => {
                return Err(e);
            },
        }
        storage.delete(self.context.plugin_id.as_str(), key);
        Ok(())
    }

    /// Drop this extension's whole storage namespace.
    pub fn storage_clear(&self, storage: &mut PluginStorage) -> (r: Result<(), ApiError>)
        requires
            old(storage).wf(),
        ensures
            final(storage).wf(),
            r is Ok <==> self.context@.capabilities.contains(PluginCapability::Storage),
            r is Err ==> (r matches Err(ApiError::Forbidden { plugin_id: p, capability: c }) && p@
                == self.context@.plugin_id && c == PluginCapability::Storage) && *final(storage)
                == *old(storage),
            r is Ok ==> final(storage).view_map() == old(storage).view_map().remove(
                self.context@.plugin_id,
            ),
    {
        match self.check_capability(PluginCapability::Storage) {
            Ok(()) => {},
            Err(e) => {
                return Err(e);
            },
        }
        storage.clear(self.context.plugin_id.as_str());
        Ok(())
    }

    /// Extract frontmatter metadata from a document, if it carries a
    /// well-formed block.
    pub fn extract_frontmatter(&self, content: &str) -> (r: Result<
        Option<serde_json::Value>,
        ApiError,
    >)
        ensures
            !crate::frontmatter::has_block(content@) ==> (r matches Ok(v) && v is None),
            crate::frontmatter::has_block(content@) ==> (r is Ok
                <==> crate::frontmatter::yaml_parses(crate::frontmatter::block_text(content@))),
            crate::frontmatter::has_block(content@) && r is Ok ==> r->Ok_0 is Some,
            r is Err ==> crate::frontmatter::has_block(content@) && (r matches Err(
                ApiError::InvalidInput { .. },
            )),
    {
        match crate::frontmatter::parse_frontmatter(content) {
            Ok((fm, _)) => Ok(fm),
            Err(e) => Err(e),
        }
    }

    /// Render CommonMark text to HTML.
    pub fn parse_markdown(&self, markdown: &str) -> (r: Result<String, ApiError>)
        ensures
            r matches Ok(h) && h@ == html_of(markdown@),
    {
        Ok(markdown_to_html(markdown))
    }

    /// HTTP GET is gated on the network capability and otherwise fails
    /// explicitly as unimplemented rather than fabricate a response.
    pub fn http_get(&self, url: &str) -> (r: Result<String, ApiError>)
        ensures
            r is Err,
            !self.context@.capabilities.contains(PluginCapability::Network) ==> (r matches Err(
                ApiError::Forbidden { plugin_id: p, capability: c },
            ) && p@ == self.context@.plugin_id && c == PluginCapability::Network),
            self.context@.capabilities.contains(PluginCapability::Network) ==> (r matches Err(
                ApiError::Unimplemented { feature: f },
            ) && f@ == "HTTP client"@),
    {
        match self.check_capability(PluginCapability::Network) {
            Ok(()) => {},
            Err(e) => {
                return Err(e);
            },
        }
        Err(ApiError::Unimplemented { feature: "HTTP client".to_owned() })
    }

    /// HTTP POST: gated like GET, and likewise explicitly unimplemented.
    pub fn http_post(&self, url: &str, body: String) -> (r: Result<String, ApiError>)
        ensures
            r is Err,
            !self.context@.capabilities.contains(PluginCapability::Network) ==> (r matches Err(
                ApiError::Forbidden { plugin_id: p, capability: c },
            ) && p@ == self.context@.plugin_id && c == PluginCapability::Network),
            self.context@.capabilities.contains(PluginCapability::Network) ==> (r matches Err(
                ApiError::Unimplemented { feature: f },
            ) && f@ == "HTTP client"@),
    {
        match self.check_capability(PluginCapability::Network) {
            Ok(()) => {},
            Err(e) => {
                return Err(e);
            },
        }
        Err(ApiError::Unimplemented { feature: "HTTP client".to_owned() })
    }

    /// Register a command under the key `<extension-id>:<command-id>`.
    pub fn register_command(&self, bus: &mut EventBus, command: Command) -> (r: Result<
        String,
        ApiError,
    >)
        requires
            old(bus).wf(),
        ensures
            final(bus).wf(),
            r is Ok <==> self.context@.capabilities.contains(PluginCapability::Commands),
            r is Err ==> (r matches Err(ApiError::Forbidden { plugin_id: p, capability: c }) && p@
                == self.context@.plugin_id && c == PluginCapability::Commands) && *final(bus)
                == *old(bus),
            r matches Ok(k) ==> {
                &&& k@ == self.context@.plugin_id + ":"@ + command@.id
                &&& final(bus).commands() == old(bus).commands().insert(k@, command@)
                &&& final(bus).subs() == old(bus).subs()
                &&& final(bus).next_id == old(bus).next_id
            },
    {
        match self.check_capability(PluginCapability::Commands) {
            Ok(()) => {},
            Err(e) => {
                return Err(e);
            },
        }
        let mut key = String::new();
        key.append(self.context.plugin_id.as_str());
        key.append(":");
        key.append(command.id.as_str());
        proof {
            assert(key@ =~= self.context@.plugin_id + ":"@ + command@.id);
        }
        let key_out = key.clone();
        bus.register_command(key, command);
        Ok(key_out)
    }

    /// Show a transient notice: gated on the UI capability, emitted as a
    /// `ShowNotice` event whose payload carries the message and duration
    /// (in milliseconds, with a default when none is given).
    pub fn show_notice(&self, bus: &EventBus, message: &str, duration_ms: Option<u32>) -> (r:
        Result<(Event, Vec<String>), ApiError>)
        ensures
            r is Ok <==> self.context@.capabilities.contains(PluginCapability::ModifyUI),
            r is Err ==> (r matches Err(ApiError::Forbidden { plugin_id: p, capability: c }) && p@
                == self.context@.plugin_id && c == PluginCapability::ModifyUI),
            r matches Ok(out) ==> {
                &&& out.0.event_type == EventType::ShowNotice
                &&& out.0.data@ == notice_payload(
                    message@,
                    match duration_ms {
                        Option::Some(d) => d,
                        Option::None => 3000,
                    },
                )
                &&& seq_views(out.1@) == subs_for(bus.subs(), EventType::ShowNotice)
            },
    {
        match self.check_capability(PluginCapability::ModifyUI) {
            Ok(()) => {},
            Err(e) => {
                return Err(e);
            },
        }
        let duration: u32 = match duration_ms {
            Some(d) => d,
            None => 3000,
        };
        let mut data = String::new();
        data.append("{\"message\":\"");
        let escaped = json_escape(message);
        data.append(escaped.as_str());
        data.append("\",\"duration\":");
        let dur = strutil::u64_to_dec(duration as u64);
        data.append(dur.as_str());
        data.append("}");
        proof {
            assert(data@ =~= notice_payload(message@, duration));
        }
        let event = Event { event_type: EventType::ShowNotice, data };
        let deliveries = bus.emit(&event);
        Ok((event, deliveries))
    }

    /// Send a message to another extension by id: emitted as a
    /// `PluginMessage` event whose payload names the sender and the target
    /// and embeds the message document.
    pub fn send_message(&self, bus: &EventBus, target_plugin: &str, message: &str) -> (r: Result<
        (Event, Vec<String>),
        ApiError,
    >)
        ensures
            r matches Ok(out) && {
                &&& out.0.event_type == EventType::PluginMessage
                &&& out.0.data@ == message_payload(
                    self.context@.plugin_id,
                    target_plugin@,
                    message@,
                )
                &&& seq_views(out.1@) == subs_for(bus.subs(), EventType::PluginMessage)
            },
    {
        let mut data = String::new();
        data.append("{\"from\":\"");
        let from_escaped = json_escape(self.context.plugin_id.as_str());
        data.append(from_escaped.as_str());
        data.append("\",\"to\":\"");
        let to_escaped = json_escape(target_plugin);
        data.append(to_escaped.as_str());
        data.append("\",\"message\":");
        data.append(message);
        data.append("}");
        proof {
            assert(data@ =~= message_payload(self.context@.plugin_id, target_plugin@, message@));
        }
        let event = Event { event_type: EventType::PluginMessage, data };
        let deliveries = bus.emit(&event);
        Ok((event, deliveries))
    }
}

} // verus!
