//! Output formats for the reduced prefix list: a JSON array, a YAML
//! sequence, or a plain list with one entry per line. The JSON and YAML
//! encodings are produced by serde behind trusted wrappers; the plain
//! list is built here.

use vstd::prelude::*;

verus! {

/// The textual representation used when writing the result.
#[derive(Clone, Copy, Debug, PartialEq, Eq, Structural)]
pub enum OutputFormat {
    Json,
    Yaml,
    List,
}

/// The view of each string in a list.
pub open spec fn string_views(v: Seq<String>) -> Seq<Seq<char>> {
    v.map(|i: int, s: String| s@)
}

/// What `serde_json::to_string` returns for a list of strings: its JSON
/// array text.
pub uninterp spec fn json_of(v: Seq<Seq<char>>) -> Seq<char>;

/// What `serde_yaml::to_string` returns for a list of strings: its YAML
/// sequence text.
pub uninterp spec fn yaml_of(v: Seq<Seq<char>>) -> Seq<char>;

/// What `str::to_lowercase` returns: the text with every character
/// lowercased.
pub uninterp spec fn lower_of(s: Seq<char>) -> Seq<char>;

/// The plain-list text: each entry followed by a line break.
pub open spec fn list_text(v: Seq<Seq<char>>) -> Seq<char>
    decreases v.len(),
{
    if v.len() == 0 {
        Seq::empty()
    } else {
        list_text(v.drop_last()) + v.last() + "\n"@
    }
}

/// A rejected output-format selector.
#[derive(Debug)]
pub struct FormatError {
    msg: String,
}

impl FormatError {
    /// The message text.
    pub closed spec fn text(self) -> Seq<char> {
        self.msg@
    }

    /// Returns the message.
    pub fn message(&self) -> (r: &str)
        ensures
            r@ == self.text(),
    {
        self.msg.as_str()
    }
}

/// A failed serialization of the result: the error side of `write`'s
/// interface. A list of strings never fails to serialize, so `write`
/// proves that it never returns one.
#[derive(Debug)]
pub struct OutputError {
    msg: String,
}

impl OutputError {
    /// The message text.
    pub closed spec fn text(self) -> Seq<char> {
        self.msg@
    }

    /// Returns the message.
    pub fn message(&self) -> (r: &str)
        ensures
            r@ == self.text(),
    {
        self.msg.as_str()
    }
}

#[verifier::external_type_specification]
#[verifier::external_body]
pub struct ExJsonError(serde_json::Error);

#[verifier::external_type_specification]
#[verifier::external_body]
pub struct ExYamlError(serde_yaml::Error);

/// Relies on `serde_json::to_string`: the JSON array holding the given
/// strings in order. On a list of strings the call cannot fail: string
/// and sequence serialization have no error path of their own, and the
/// output goes to an in-memory buffer, so it always returns `Ok`.
#[verifier::external_body]
fn to_json(prefixes: &Vec<String>) -> (r: Result<String, serde_json::Error>)
    ensures
        r is Ok,
        r matches Ok(s) ==> s@ == json_of(string_views(prefixes@)),
{
    serde_json::to_string(prefixes)
}

/// Relies on `serde_yaml::to_string`: the YAML sequence holding the
/// given strings in order. On a list of strings the call cannot fail:
/// string and sequence serialization have no error path of their own,
/// the emitter is fed a well-formed event sequence and emits valid
/// UTF-8, allocation failure aborts instead of erroring, and the output
/// goes to an in-memory buffer, so it always returns `Ok`.
#[verifier::external_body]
fn to_yaml(prefixes: &Vec<String>) -> (r: Result<String, serde_yaml::Error>)
    ensures
        r is Ok,
        r matches Ok(s) ==> s@ == yaml_of(string_views(prefixes@)),
{
    serde_yaml::to_string(prefixes)
}

/// Relies on `str::to_lowercase`: the result depends on the characters
/// alone.
#[verifier::external_body]
fn lowercase(s: &str) -> (r: String)
    ensures
        r@ == lower_of(s@),
{
    s.to_lowercase()
}

impl OutputFormat {
    /// Serializes the prefixes in this format. JSON and YAML texts end
    /// with a line break after the serialized document; the plain list
    /// holds one entry per line. None of the three serializations can
    /// fail on a list of strings, so every arm returns `Ok` with the
    /// format's exact text; the `Result` keeps the interface's shape for
    /// sinks whose serialization can fail.
    pub fn write(&self, prefixes: Vec<String>) -> (r: Result<String, OutputError>)
        ensures
            *self == OutputFormat::Json ==> (r matches Ok(s) && s@ == json_of(
                string_views(prefixes@),
            ) + "\n"@),
            *self == OutputFormat::Yaml ==> (r matches Ok(s) && s@ == yaml_of(
                string_views(prefixes@),
            ) + "\n"@),
            *self == OutputFormat::List ==> (r matches Ok(s) && s@ == list_text(
                string_views(prefixes@),
            )),
    {
        match self {
            OutputFormat::Json => Ok(Self::write_json(prefixes)),
            OutputFormat::Yaml => Ok(Self::write_yaml(prefixes)),
            OutputFormat::List => Ok(Self::write_list(prefixes)),
        }
    }

    /// The JSON document with its trailing line break.
    fn write_json(prefixes: Vec<String>) -> (r: String)
        ensures
            r@ == json_of(string_views(prefixes@)) + "\n"@,
    {
        let mut json = to_json(&prefixes).unwrap();
        json.append("\n");
        json
    }

    /// The YAML document with its trailing line break.
    fn write_yaml(prefixes: Vec<String>) -> (r: String)
        ensures
            r@ == yaml_of(string_views(prefixes@)) + "\n"@,
    {
        let mut yaml = to_yaml(&prefixes).unwrap();
        yaml.append("\n");
        yaml
    }

    /// The plain list: every prefix on its own line.
    fn write_list(prefixes: Vec<String>) -> (r: String)
        ensures
            r@ == list_text(string_views(prefixes@)),
    {
        let mut out = String::new();
        proof {
            assert(string_views(prefixes@).take(0) =~= Seq::<Seq<char>>::empty());
        }
        let mut i: usize = 0;
        while i < prefixes.len()
            invariant
                i <= prefixes@.len(),
                out@ == list_text(string_views(prefixes@).take(i as int)),
            decreases prefixes@.len() - i,
        {
            out.append(prefixes[i].as_str());
            out.append("\n");
            proof {
                let views = string_views(prefixes@);
                assert(views.take(i + 1).drop_last() =~= views.take(i as int));
                assert(views.take(i + 1).last() == prefixes@[i as int]@);
            }
            i += 1;
        }
        proof {
            assert(string_views(prefixes@).take(prefixes@.len() as int) =~= string_views(
                prefixes@,
            ));
        }
        out
    }

    /// Reads a format selector, ignoring letter case: `json`, `yaml` or
    /// `list`. Anything else is rejected with a message naming the
    /// selector.
    pub fn from_str(s: &str) -> (r: Result<OutputFormat, FormatError>)
        ensures
            r == Ok::<OutputFormat, FormatError>(OutputFormat::Json) <==> lower_of(s@)
                == "json"@,
            r == Ok::<OutputFormat, FormatError>(OutputFormat::Yaml) <==> lower_of(s@)
                == "yaml"@,
            r == Ok::<OutputFormat, FormatError>(OutputFormat::List) <==> lower_of(s@)
                == "list"@,
            r matches Err(e) ==> e.text() == "Unknown output format: "@ + s@,
            r is Err <==> (lower_of(s@) != "json"@ && lower_of(s@) != "yaml"@ && lower_of(s@)
                != "list"@),
    {
        proof {
            reveal_strlit("json");
            reveal_strlit("yaml");
            reveal_strlit("list");
            assert("json"@[0] != "yaml"@[0]);
            assert("json"@[0] != "list"@[0]);
            assert("yaml"@[0] != "list"@[0]);
        }
        let low = lowercase(s);
        if low == String::from_str("json") {
            Ok(OutputFormat::Json)
        } else if low == String::from_str("yaml") {
            Ok(OutputFormat::Yaml)
        } else if low == String::from_str("list") {
            Ok(OutputFormat::List)
        } else {
            Err(FormatError { msg: String::from_str("Unknown output format: ").concat(s) })
        }
    }
}

} // verus!
