//! Backup manifests in text.
use crate::image::{files_view, pieces_view, size, size_of, FileView, Image, Piece};
use crate::json::{fields_view, list_view, Field, Json, JsonView};
use crate::publish::{empty_object, object, text_value};
use crate::refusal::{refuse, seen, Refusal};
use crate::text::{decimal, push_dec};
use crate::wire::{digest, digest_of, hex_of};
use vstd::prelude::*;
use vstd::slice::{slice_subrange, slice_to_vec};
use vstd::utf8::encode_utf8;

verus! {

/// A character as JSON writes it inside of a string.
pub open spec fn escaped(c: char) -> Seq<char> {
    if c == '"' || c == '\\' {
        seq!['\\', c]
    } else if c == '\u{8}' {
        seq!['\\', 'b']
    } else if c == '\t' {
        seq!['\\', 't']
    } else if c == '\n' {
        seq!['\\', 'n']
    } else if c == '\u{c}' {
        seq!['\\', 'f']
    } else if c == '\r' {
        seq!['\\', 'r']
    } else if (c as u32) < 0x20 {
        seq!['\\', 'u', '0', '0'] + hex_of(seq![c as u8])
    } else {
        seq![c]
    }
}

/// Characters as JSON writes them inside of a string.
pub open spec fn all_escaped(s: Seq<char>) -> Seq<char>
    decreases s.len(),
{
    if s.len() == 0 {
        Seq::empty()
    } else {
        all_escaped(s.drop_last()) + escaped(s.last())
    }
}

/// A string as JSON writes it, in quotes.
pub open spec fn json_quoted(s: Seq<char>) -> Seq<char> {
    seq!['"'] + all_escaped(s) + seq!['"']
}

/// `serde_json::to_string` of a string: the string in quotes, with quotes, backslashes and
/// control characters escaped.
#[verifier::external_body]
fn quote(s: &str) -> (r: String)
    ensures
        r@ == json_quoted(s@),
{
    serde_json::to_string(s).unwrap()
}

/// Texts with commas between.
pub open spec fn joined(parts: Seq<Seq<char>>) -> Seq<char>
    decreases parts.len(),
{
    if parts.len() == 0 {
        Seq::empty()
    } else if parts.len() == 1 {
        parts[0]
    } else {
        joined(parts.drop_last()) + ","@ + parts.last()
    }
}

/// A JSON value in text, without white space.
pub open spec fn rendered(v: JsonView) -> Seq<char>
    decreases v,
{
    match v {
        JsonView::Null => "null"@,
        JsonView::Bool(b) => if b {
            "true"@
        } else {
            "false"@
        },
        JsonView::Number(n) => decimal(n as nat),
        JsonView::Other(s) => s,
        JsonView::Text(s) => json_quoted(s),
        JsonView::List(l) => "["@ + joined(list_texts(l)) + "]"@,
        JsonView::Object(o) => "{"@ + joined(field_texts(o)) + "}"@,
    }
}

/// The items of a list in text.
pub open spec fn list_texts(l: Seq<JsonView>) -> Seq<Seq<char>>
    decreases l,
{
    if l.len() == 0 {
        Seq::empty()
    } else {
        list_texts(l.drop_last()).push(rendered(l[l.len() - 1]))
    }
}

/// The fields of an object in text.
pub open spec fn field_texts(o: Seq<(Seq<char>, JsonView)>) -> Seq<Seq<char>>
    decreases o,
{
    if o.len() == 0 {
        Seq::empty()
    } else {
        field_texts(o.drop_last()).push(
            json_quoted(o[o.len() - 1].0) + ":"@ + rendered(o[o.len() - 1].1),
        )
    }
}

proof fn lemma_joined_push(parts: Seq<Seq<char>>, x: Seq<char>)
    ensures
        joined(parts.push(x)) == (if parts.len() == 0 {
            x
        } else {
            joined(parts) + ","@ + x
        }),
{
    assert(parts.push(x).drop_last() =~= parts);
}

proof fn lemma_texts_len(l: Seq<JsonView>)
    ensures
        list_texts(l).len() == l.len(),
    decreases l.len(),
{
    if l.len() > 0 {
        lemma_texts_len(l.drop_last());
    }
}

proof fn lemma_field_texts_len(o: Seq<(Seq<char>, JsonView)>)
    ensures
        field_texts(o).len() == o.len(),
    decreases o.len(),
{
    if o.len() > 0 {
        lemma_field_texts_len(o.drop_last());
    }
}

fn render_list(out: &mut String, l: &Vec<Json>)
    ensures
        final(out)@ == old(out)@ + joined(list_texts(list_view(l@))),
    decreases *l,
{
    let ghost before = out@;
    let ghost all = list_view(l@);
    let mut i: usize = 0;
    proof {
        assert(all.take(0) =~= Seq::empty());
        assert(out@ =~= before + joined(list_texts(all.take(0))));
    }
    while i < l.len()
        invariant
            i <= l@.len(),
            all == list_view(l@),
            out@ == before + joined(list_texts(all.take(i as int))),
            decreases_to!(*l => l@),
        decreases l@.len() - i,
    {
        if i > 0 {
            out.append(",");
        }
        render(out, &l[i]);
        proof {
            let head = all.take(i as int);
            let next = all.take(i + 1);
            assert(next.drop_last() =~= head);
            assert(next[next.len() - 1] == l@[i as int]@);
            lemma_texts_len(head);
            lemma_joined_push(list_texts(head), rendered(l@[i as int]@));
            assert(list_texts(next) == list_texts(head).push(rendered(l@[i as int]@)));
            assert(out@ =~= before + joined(list_texts(next)));
        }
        i += 1;
    }
    proof {
        assert(all.take(all.len() as int) =~= all);
    }
}

fn render_fields(out: &mut String, o: &Vec<Field>)
    ensures
        final(out)@ == old(out)@ + joined(field_texts(fields_view(o@))),
    decreases *o,
{
    let ghost before = out@;
    let ghost all = fields_view(o@);
    let mut i: usize = 0;
    proof {
        assert(all.take(0) =~= Seq::empty());
        assert(out@ =~= before + joined(field_texts(all.take(0))));
    }
    while i < o.len()
        invariant
            i <= o@.len(),
            all == fields_view(o@),
            out@ == before + joined(field_texts(all.take(i as int))),
            decreases_to!(*o => o@),
        decreases o@.len() - i,
    {
        if i > 0 {
            out.append(",");
        }
        out.append(quote(o[i].name.as_str()).as_str());
        out.append(":");
        render(out, &o[i].value);
        proof {
            let head = all.take(i as int);
            let next = all.take(i + 1);
            let text = json_quoted(o@[i as int].name@) + ":"@ + rendered(o@[i as int].value@);
            assert(next.drop_last() =~= head);
            assert(next[next.len() - 1] == (o@[i as int].name@, o@[i as int].value@));
            lemma_field_texts_len(head);
            lemma_joined_push(field_texts(head), text);
            assert(field_texts(next) == field_texts(head).push(text));
            assert(out@ =~= before + joined(field_texts(next)));
        }
        i += 1;
    }
    proof {
        assert(all.take(all.len() as int) =~= all);
    }
}

/// Appends a JSON value in text.
pub fn render(out: &mut String, v: &Json)
    ensures
        final(out)@ == old(out)@ + rendered(v@),
    decreases *v,
{
    let ghost before = out@;
    proof {
        crate::json::lemma_views(*v);
    }
    match v {
        Json::Null => out.append("null"),
        Json::Bool(b) => if *b {
            out.append("true")
        } else {
            out.append("false")
        },
        Json::Number(n) => push_dec(out, *n),
        Json::Other(s) => out.append(s.as_str()),
        Json::Text(s) => out.append(quote(s.as_str()).as_str()),
        Json::List(l) => {
            out.append("[");
            render_list(out, l);
            out.append("]");
        },
        Json::Object(o) => {
            out.append("{");
            render_fields(out, o);
            out.append("}");
        },
    }
    proof {
        assert(out@ =~= before + rendered(v@));
    }
}

/// The object that a JSON value is stored as.
pub open spec fn body_of(v: JsonView) -> Seq<u8> {
    encode_utf8(rendered(v))
}

/// The object that a JSON value is stored as.
pub fn body(v: &Json) -> (r: Vec<u8>)
    ensures
        r@ == body_of(v@),
{
    let mut s = String::new();
    render(&mut s, v);
    proof {
        assert(s@ =~= rendered(v@));
    }
    slice_to_vec(s.as_str().as_bytes())
}

/// What a manifest's checksum covers.
pub open spec fn manifest_body(system: u64, files: JsonView, ranges: JsonView) -> Seq<char> {
    "{\"PostgreSQL-Backup-Manifest-Version\":2,\"System-Identifier\":"@ + decimal(system as nat)
        + ",\n\"Files\":"@ + rendered(files) + ",\n\"WAL-Ranges\":"@ + rendered(ranges) + ",\n"@
}

/// A backup manifest.
pub open spec fn manifest_chars(system: u64, files: JsonView, ranges: JsonView) -> Seq<char> {
    let body = manifest_body(system, files, ranges);
    body + "\"Manifest-Checksum\":\""@ + digest_of(encode_utf8(body)) + "\"}\n"@
}

/// Writes a backup manifest.
pub fn manifest(system: u64, files: &Json, ranges: &Json) -> (r: Vec<u8>)
    ensures
        r@ == encode_utf8(manifest_chars(system, files@, ranges@)),
{
    let mut body = "{\"PostgreSQL-Backup-Manifest-Version\":2,\"System-Identifier\":".to_owned();
    push_dec(&mut body, system);
    body.append(",\n\"Files\":");
    render(&mut body, files);
    body.append(",\n\"WAL-Ranges\":");
    render(&mut body, ranges);
    body.append(",\n");
    proof {
        assert(body@ =~= manifest_body(system, files@, ranges@));
    }
    let sum = digest(body.as_str().as_bytes());
    body.append("\"Manifest-Checksum\":\"");
    body.append(sum.as_str());
    body.append("\"}\n");
    proof {
        assert(body@ =~= manifest_chars(system, files@, ranges@));
    }
    slice_to_vec(body.as_str().as_bytes())
}

/// A file in an inventory, without a checksum.
pub open spec fn file_entry(path: Seq<char>, size: nat) -> JsonView {
    empty_object().with("Path"@, JsonView::Text(path)).with("Size"@, JsonView::Number(size as u64))
}

/// The inventory of a snapshot, without checksums.
pub open spec fn inventory(files: Seq<FileView>) -> JsonView {
    JsonView::List(Seq::new(files.len(), |i: int| file_entry(files[i].0, size_of(files[i].1))))
}

/// Every file of a snapshot has a size that a machine can count.
pub open spec fn countable(files: Seq<FileView>) -> bool {
    forall|i: int| 0 <= i < files.len() ==> size_of((#[trigger] files[i]).1) <= usize::MAX
}

impl Image {
    /// The manifest that an increment of this snapshot is taken against.
    pub fn manifest(&self) -> (r: Vec<u8>)
        requires
            countable(files_view(self.files@)),
        ensures
            r@ == encode_utf8(
                manifest_chars(self.system, inventory(files_view(self.files@)), self.ranges@),
            ),
    {
        let ghost f = files_view(self.files@);
        let mut list: Vec<Json> = Vec::new();
        let mut i: usize = 0;
        while i < self.files.len()
            invariant
                f == files_view(self.files@),
                countable(f),
                i <= self.files@.len(),
                list@.len() == i,
                forall|j: int|
                    0 <= j < i ==> (#[trigger] list@[j])@ == file_entry(f[j].0, size_of(f[j].1)),
            decreases self.files@.len() - i,
        {
            let mut e = object();
            e.set("Path", text_value(self.files[i].path.as_str()));
            proof {
                assert(f[i as int].1 == pieces_view(self.files@[i as int].pieces@));
            }
            let n: usize = size(&self.files[i].pieces);
            e.set("Size", Json::Number(n as u64));
            list.push(e);
            i += 1;
        }
        let files = Json::List(list);
        proof {
            crate::json::lemma_views(files);
            assert(list_view(list@) =~= inventory(f)->List_0);
        }
        manifest(self.system, &files, &self.ranges)
    }
}

/// A file in the inventory of a restored snapshot.
pub open spec fn checked_entry(path: Seq<char>, content: Seq<u8>) -> JsonView {
    empty_object().with("Checksum"@, JsonView::Text(digest_of(content))).with(
        "Checksum-Algorithm"@,
        JsonView::Text("SHA256"@),
    ).with("Path"@, JsonView::Text(path)).with("Size"@, JsonView::Number(content.len() as u64))
}

/// The inventory entry of a restored file.
pub fn restored_entry(path: &str, content: &[u8]) -> (r: Json)
    ensures
        r@ == checked_entry(path@, content@),
{
    let mut e = object();
    e.set("Checksum", text_value(digest(content).as_str()));
    e.set("Checksum-Algorithm", text_value("SHA256"));
    e.set("Path", text_value(path));
    e.set("Size", Json::Number(content.len() as u64));
    e
}

/// Appends the bytes that `p` refers to in the object that holds them.
pub fn append_piece(out: &mut Vec<u8>, object: &[u8], p: &Piece) -> (r: Result<(), Refusal>)
    ensures
        if p@.offset + p@.length <= object@.len() {
            r is Ok && final(out)@ == old(out)@ + object@.subrange(
                p@.offset as int,
                (p@.offset + p@.length) as int,
            )
        } else {
            seen(r) == Err::<(), Seq<char>>("short snapshot object"@) && final(out)@ == old(out)@
        },
{
    if p.offset > object.len() || p.length > object.len() - p.offset {
        return Err(refuse("short snapshot object"));
    }
    let ghost before = out@;
    out.extend_from_slice(slice_subrange(object, p.offset, p.offset + p.length));
    proof {
        assert(out@ =~= before + object@.subrange(p.offset as int, p.offset + p.length));
    }
    Ok(())
}

} // verus!
