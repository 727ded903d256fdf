//! The snapshot codec: the application state as a JSON text, the shape the
//! local cache and the remote store hold, and the decoder that accepts
//! exactly that shape back.
use vstd::prelude::*;
use crate::tree::{Entry, Folder, Task, TreeV, lemma_seq_view};
use crate::state::{State, StateV, EntryId};

verus! {

/// The decimal digit character for a value below ten.
pub open spec fn digit_char(d: nat) -> char {
    ((d + 48) as u8) as char
}

/// The decimal rendering of a number, most significant digit first.
pub open spec fn spec_digits(n: nat) -> Seq<char>
    decreases n,
{
    if n < 10 {
        seq![digit_char(n)]
    } else {
        spec_digits(n / 10).push(digit_char(n % 10))
    }
}

/// The lowercase hexadecimal digit character for a value below sixteen.
pub open spec fn hex_char(d: nat) -> char {
    if d < 10 {
        ((d + 48) as u8) as char
    } else {
        ((d + 87) as u8) as char
    }
}

/// The JSON escape of one character: quotes and backslashes are prefixed,
/// control characters become a four-digit escape, the rest stand as
/// themselves.
pub open spec fn esc_char(c: char) -> Seq<char> {
    if c == '"' {
        seq!['\\', '"']
    } else if c == '\\' {
        seq!['\\', '\\']
    } else if (c as nat) < 32 {
        seq!['\\', 'u', '0', '0', hex_char((c as nat) / 16), hex_char((c as nat) % 16)]
    } else {
        seq![c]
    }
}

/// The JSON escape of a whole string body.
pub open spec fn esc(s: Seq<char>) -> Seq<char>
    decreases s,
{
    if s.len() == 0 {
        Seq::empty()
    } else {
        esc_char(s[0]) + esc(s.drop_first())
    }
}

/// A JSON string: the escaped body between quotes.
pub open spec fn jstr(s: Seq<char>) -> Seq<char> {
    seq!['"'] + esc(s) + seq!['"']
}

/// A JSON optional number: `null`, or the digits.
pub open spec fn jopt(n: Option<usize>) -> Seq<char> {
    match n {
        None => seq!['n', 'u', 'l', 'l'],
        Some(v) => spec_digits(v as nat),
    }
}

/// A JSON boolean.
pub open spec fn jbool(b: bool) -> Seq<char> {
    if b {
        seq!['t', 'r', 'u', 'e']
    } else {
        seq!['f', 'a', 'l', 's', 'e']
    }
}

/// The JSON encoding of one entry, as a tagged one-field object.
pub open spec fn enc_tree(t: TreeV) -> Seq<char>
    decreases t,
{
    match t {
        TreeV::Task { name, done, id } => "{\"Task\":{\"name\":"@ + jstr(name) + ",\"done\":"@
            + jbool(done) + ",\"id\":"@ + spec_digits(id as nat) + "}}"@,
        TreeV::Folder { name, entries, parent, id } => "{\"Folder\":{\"name\":"@ + jstr(name)
            + ",\"entries\":["@ + enc_trees(entries) + "],\"parent\":"@ + jopt(parent)
            + ",\"id\":"@ + spec_digits(id as nat) + "}}"@,
    }
}

/// The comma-separated encodings of a sequence of entries.
pub open spec fn enc_trees(es: Seq<TreeV>) -> Seq<char>
    decreases es,
{
    if es.len() == 0 {
        Seq::empty()
    } else {
        enc_tree(es[0]) + enc_list(es.drop_first())
    }
}

/// The encodings of the entries after the first, each behind a comma.
pub open spec fn enc_list(es: Seq<TreeV>) -> Seq<char>
    decreases es,
{
    if es.len() == 0 {
        Seq::empty()
    } else {
        seq![','] + enc_tree(es[0]) + enc_list(es.drop_first())
    }
}

/// The JSON encoding of a whole application state.
pub open spec fn enc_state(s: StateV) -> Seq<char> {
    "{\"root\":"@ + enc_tree(s.root) + ",\"view\":"@ + spec_digits(s.view as nat)
        + ",\"id\":{\"latest_id\":"@ + spec_digits(s.latest_id as nat) + "},\"input\":"@ + jstr(
        s.input,
    ) + ",\"add_task\":"@ + spec_digits(s.add_task as nat) + ",\"add_folder\":"@ + spec_digits(
        s.add_folder as nat,
    ) + ",\"editing\":"@ + jopt(s.editing) + "}"@
}

/// The state as exported: the edit session closed and the view on the
/// root, since both are ephemeral.
pub open spec fn normalize(s: StateV) -> StateV {
    StateV { editing: None, view: s.root.id(), ..s }
}

/// Normalization touches only the ephemeral parts: the tree, the pending
/// input, the allocator and the slot ids survive a push untouched, the
/// view lands on the root, the edit session closes, and normalizing twice
/// is the same as normalizing once. Well-formedness carries over.
pub proof fn lemma_normalize(s: StateV)
    ensures
        normalize(s).root == s.root,
        normalize(s).input == s.input,
        normalize(s).latest_id == s.latest_id,
        normalize(s).add_task == s.add_task,
        normalize(s).add_folder == s.add_folder,
        normalize(s).view == s.root.id(),
        normalize(s).editing is None,
        normalize(normalize(s)) == normalize(s),
        s.wf() ==> normalize(s).wf(),
{
}

/// A character that stands for itself in the snapshot text: not a control
/// character, so its escape is the character itself or a quoted pair.
pub open spec fn plain_char(c: char) -> bool {
    c as nat >= 32
}

pub open spec fn plain_name(s: Seq<char>) -> bool {
    forall|m: int| 0 <= m < s.len() ==> plain_char(#[trigger] s[m])
}

/// Every name in the subtree is plain text.
pub open spec fn plain_tree(t: TreeV) -> bool
    decreases t,
{
    match t {
        TreeV::Task { name, .. } => plain_name(name),
        TreeV::Folder { name, entries, .. } => plain_name(name) && plain_trees(entries),
    }
}

pub open spec fn plain_trees(es: Seq<TreeV>) -> bool
    decreases es,
{
    if es.len() == 0 {
        true
    } else {
        plain_tree(es[0]) && plain_trees(es.drop_first())
    }
}

/// Every name in the state, the pending input included, is plain text.
pub open spec fn plain_state(s: StateV) -> bool {
    plain_tree(s.root) && plain_name(s.input)
}

/// Appends the decimal digits of a number.
fn push_digits(out: &mut Vec<char>, n: usize)
    ensures
        final(out)@ == old(out)@ + spec_digits(n as nat),
    decreases n,
{
    if n < 10 {
        out.push((((n + 48) as u8) as char));
        proof {
            assert(out@ =~= old(out)@ + spec_digits(n as nat));
        }
    } else {
        push_digits(out, n / 10);
        out.push((((n % 10 + 48) as u8) as char));
        proof {
            assert(out@ =~= old(out)@ + spec_digits(n as nat));
        }
    }
}

/// Escaping distributes over concatenation of string bodies.
pub proof fn lemma_esc_concat(a: Seq<char>, b: Seq<char>)
    ensures
        esc(a + b) == esc(a) + esc(b),
    decreases a,
{
    if a.len() == 0 {
        assert(a + b =~= b);
        assert(esc(a) + esc(b) =~= esc(b));
    } else {
        lemma_esc_concat(a.drop_first(), b);
        assert((a + b).drop_first() =~= a.drop_first() + b);
        assert((a + b)[0] == a[0]);
        assert(esc_char(a[0]) + (esc(a.drop_first()) + esc(b)) =~= (esc_char(a[0]) + esc(
            a.drop_first(),
        )) + esc(b));
    }
}

/// The escape of a single character, as a sequence.
pub proof fn lemma_esc_single(c: char)
    ensures
        esc(seq![c]) == esc_char(c),
{
    assert(esc(Seq::<char>::empty()) == Seq::<char>::empty());
    assert(seq![c].drop_first() =~= Seq::<char>::empty());
    assert(seq![c][0] == c);
    assert(esc_char(c) + Seq::<char>::empty() =~= esc_char(c));
}

/// Appends a JSON string: quoted, with the body escaped.
#[verifier::loop_isolation(false)]
fn push_jstr(out: &mut Vec<char>, s: &String)
    ensures
        final(out)@ == old(out)@ + jstr(s@),
{
    out.push('"');
    let n = s.as_str().unicode_len();
    let mut i: usize = 0;
    while i < n
        invariant
            0 <= i <= n,
            n == s@.len(),
            out@ == old(out)@ + seq!['"'] + esc(s@.take(i as int)),
        decreases n - i,
    {
        let c = s.as_str().get_char(i);
        proof {
            assert(s@.take(i as int).push(c) =~= s@.take(i + 1 as int));
            lemma_esc_concat(s@.take(i as int), seq![c]);
            assert(s@.take(i as int) + seq![c] =~= s@.take(i + 1 as int));
            lemma_esc_single(c);
        }
        if c == '"' {
            out.push('\\');
            out.push('"');
        } else if c == '\\' {
            out.push('\\');
            out.push('\\');
        } else if (c as u32) < 32 {
            out.push('\\');
            out.push('u');
            out.push('0');
            out.push('0');
            let d = c as u32;
            let hi = (d / 16) as u8;
            let lo = (d % 16) as u8;
            out.push(
                if hi < 10 {
                    ((hi + 48) as char)
                } else {
                    ((hi + 87) as char)
                },
            );
            out.push(
                if lo < 10 {
                    ((lo + 48) as char)
                } else {
                    ((lo + 87) as char)
                },
            );
        } else {
            out.push(c);
        }
        proof {
            assert(out@ =~= old(out)@ + seq!['"'] + esc(s@.take(i + 1 as int)));
        }
        i = i + 1;
    }
    out.push('"');
    proof {
        assert(s@.take(n as int) =~= s@);
        assert(out@ =~= old(out)@ + jstr(s@));
    }
}

/// Appends the characters of a literal.
#[verifier::loop_isolation(false)]
fn push_lit(out: &mut Vec<char>, lit: &str)
    ensures
        final(out)@ == old(out)@ + lit@,
{
    let n = lit.unicode_len();
    let mut i: usize = 0;
    while i < n
        invariant
            0 <= i <= n,
            n == lit@.len(),
            out@ == old(out)@ + lit@.take(i as int),
        decreases n - i,
    {
        let c = lit.get_char(i);
        out.push(c);
        proof {
            assert(lit@.take(i as int).push(c) =~= lit@.take(i + 1 as int));
            assert(out@ =~= old(out)@ + lit@.take(i + 1 as int));
        }
        i = i + 1;
    }
    proof {
        assert(lit@.take(n as int) =~= lit@);
    }
}

/// Appends a JSON optional number.
fn push_opt(out: &mut Vec<char>, o: &Option<usize>)
    ensures
        final(out)@ == old(out)@ + jopt(*o),
{
    match o {
        None => {
            push_lit(out, "null");
            proof {
                reveal_strlit("null");
                assert(out@ =~= old(out)@ + jopt(None));
            }
        },
        Some(v) => {
            push_digits(out, *v);
        },
    }
}

/// Appends a JSON boolean.
fn push_bool(out: &mut Vec<char>, b: bool)
    ensures
        final(out)@ == old(out)@ + jbool(b),
{
    if b {
        push_lit(out, "true");
        proof {
            reveal_strlit("true");
            assert(out@ =~= old(out)@ + jbool(b));
        }
    } else {
        push_lit(out, "false");
        proof {
            reveal_strlit("false");
            assert(out@ =~= old(out)@ + jbool(b));
        }
    }
}

/// Appending one more entry extends the comma-separated encodings by a
/// comma and that entry's encoding.
pub proof fn lemma_enc_list_push(es: Seq<TreeV>, x: TreeV)
    ensures
        enc_list(es.push(x)) == enc_list(es) + seq![','] + enc_tree(x),
    decreases es,
{
    if es.len() == 0 {
        assert(es.push(x)[0] == x);
        assert(es.push(x).drop_first() =~= Seq::<TreeV>::empty());
        assert(enc_list(Seq::<TreeV>::empty()) == Seq::<char>::empty());
        assert(enc_list(es.push(x)) =~= enc_list(es) + seq![','] + enc_tree(x));
    } else {
        lemma_enc_list_push(es.drop_first(), x);
        assert(es.push(x)[0] == es[0]);
        assert(es.push(x).drop_first() =~= es.drop_first().push(x));
        assert(seq![','] + enc_tree(es[0]) + (enc_list(es.drop_first()) + seq![','] + enc_tree(x))
            =~= (seq![','] + enc_tree(es[0]) + enc_list(es.drop_first())) + seq![','] + enc_tree(
            x,
        ));
    }
}

pub proof fn lemma_enc_trees_push(es: Seq<TreeV>, x: TreeV)
    ensures
        enc_trees(es.push(x)) == if es.len() == 0 {
            enc_tree(x)
        } else {
            enc_trees(es) + seq![','] + enc_tree(x)
        },
{
    if es.len() == 0 {
        assert(es.push(x)[0] == x);
        assert(es.push(x).drop_first() =~= Seq::<TreeV>::empty());
        assert(enc_list(Seq::<TreeV>::empty()) == Seq::<char>::empty());
        assert(enc_trees(es.push(x)) =~= enc_tree(x));
    } else {
        lemma_enc_list_push(es.drop_first(), x);
        assert(es.push(x)[0] == es[0]);
        assert(es.push(x).drop_first() =~= es.drop_first().push(x));
        assert(enc_tree(es[0]) + (enc_list(es.drop_first()) + seq![','] + enc_tree(x)) =~= (
        enc_tree(es[0]) + enc_list(es.drop_first())) + seq![','] + enc_tree(x));
    }
}

/// Appends the JSON encoding of one entry and its whole subtree.
#[verifier::rlimit(100)]
#[verifier::loop_isolation(false)]
fn push_tree(out: &mut Vec<char>, e: &Entry)
    ensures
        final(out)@ == old(out)@ + enc_tree(e@),
    decreases *e,
{
    match e {
        Entry::Task(t) => {
            push_lit(out, "{\"Task\":{\"name\":");
            push_jstr(out, &t.name);
            push_lit(out, ",\"done\":");
            push_bool(out, t.done);
            push_lit(out, ",\"id\":");
            push_digits(out, t.id);
            push_lit(out, "}}");
            proof {
                assert(out@ =~= old(out)@ + enc_tree(e@));
            }
        },
        Entry::Folder(f) => {
            push_lit(out, "{\"Folder\":{\"name\":");
            push_jstr(out, &f.name);
            push_lit(out, ",\"entries\":[");
            proof {
                lemma_seq_view(f.entries@);
            }
            let ghost evs = Entry::seq_view(f.entries@);
            let ghost base = out@;
            let n = f.entries.len();
            let mut i: usize = 0;
            while i < n
                invariant
                    0 <= i <= n,
                    n == f.entries@.len(),
                    out@ == base + enc_trees(evs.take(i as int)),
                decreases n - i,
            {
                if i > 0 {
                    out.push(',');
                }
                proof {
                    assert(decreases_to!(Entry::Folder(*f) => *f));
                    assert(decreases_to!(*f => f.entries));
                    assert(decreases_to!(f.entries => f.entries@));
                    vstd::seq::axiom_seq_index_decreases(f.entries@, i as int);
                }
                push_tree(out, &f.entries[i]);
                proof {
                    assert(evs.take(i as int).push(evs[i as int]) =~= evs.take(i + 1 as int));
                    lemma_enc_trees_push(evs.take(i as int), evs[i as int]);
                    assert(out@ =~= base + enc_trees(evs.take(i + 1 as int)));
                }
                i = i + 1;
            }
            proof {
                assert(evs.take(n as int) =~= evs);
            }
            push_lit(out, "],\"parent\":");
            push_opt(out, &f.parent);
            push_lit(out, ",\"id\":");
            push_digits(out, f.id);
            push_lit(out, "}}");
            proof {
                assert(out@ =~= old(out)@ + enc_tree(e@));
            }
        },
    }
}

/// The JSON snapshot of the given parts of a state.
#[verifier::rlimit(100)]
#[verifier::spinoff_prover]
fn push_state(
    out: &mut Vec<char>,
    root: &Entry,
    view: usize,
    latest: usize,
    input: &String,
    add_task: usize,
    add_folder: usize,
    editing: &Option<usize>,
)
    ensures
        final(out)@ == old(out)@ + enc_state(
            StateV {
                root: root@,
                view,
                latest_id: latest,
                input: input@,
                add_task,
                add_folder,
                editing: *editing,
            },
        ),
{
    push_lit(out, "{\"root\":");
    push_tree(out, root);
    push_lit(out, ",\"view\":");
    push_digits(out, view);
    push_lit(out, ",\"id\":{\"latest_id\":");
    push_digits(out, latest);
    push_lit(out, "},\"input\":");
    push_jstr(out, input);
    push_lit(out, ",\"add_task\":");
    push_digits(out, add_task);
    push_lit(out, ",\"add_folder\":");
    push_digits(out, add_folder);
    push_lit(out, ",\"editing\":");
    push_opt(out, editing);
    push_lit(out, "}");
    proof {
        assert(out@ =~= old(out)@ + enc_state(
            StateV {
                root: root@,
                view,
                latest_id: latest,
                input: input@,
                add_task,
                add_folder,
                editing: *editing,
            },
        ));
    }
}

/// The JSON snapshot of the state exactly as it stands.
pub fn encode_state(s: &State) -> (r: Vec<char>)
    ensures
        r@ == enc_state(s@),
{
    let mut out: Vec<char> = Vec::new();
    push_state(&mut out, &s.root, s.view, s.id.latest_id, &s.input, s.add_task, s.add_folder, &s.editing);
    proof {
        assert(Seq::<char>::empty() + enc_state(s@) =~= enc_state(s@));
        assert(s@ == (StateV {
            root: s.root@,
            view: s.view,
            latest_id: s.id.latest_id,
            input: s.input@,
            add_task: s.add_task,
            add_folder: s.add_folder,
            editing: s.editing,
        }));
    }
    out
}

/// The JSON snapshot as exported to the cache and the remote store: the
/// edit session closed and the view on the root.
pub fn encode_normalized(s: &State) -> (r: Vec<char>)
    ensures
        r@ == enc_state(normalize(s@)),
{
    let mut out: Vec<char> = Vec::new();
    let rid = s.root.id();
    push_state(&mut out, &s.root, rid, s.id.latest_id, &s.input, s.add_task, s.add_folder, &None);
    proof {
        assert(Seq::<char>::empty() + enc_state(normalize(s@)) =~= enc_state(normalize(s@)));
        assert(normalize(s@) == (StateV {
            root: s.root@,
            view: rid,
            latest_id: s.id.latest_id,
            input: s.input@,
            add_task: s.add_task,
            add_folder: s.add_folder,
            editing: None,
        }));
    }
    out
}

/// Relies on String::push: appends exactly the one character.
#[verifier::external_body]
fn push_char(s: &mut String, c: char)
    ensures
        final(s)@ == old(s)@.push(c),
{
    s.push(c);
}

/// Whether the text at the position starts with the given prefix.
pub open spec fn starts_at(s: Seq<char>, i: int, p: Seq<char>) -> bool {
    i + p.len() <= s.len() && s.subrange(i, i + p.len()) == p
}

/// Dropping a known prefix moves the rest of a decomposition up.
pub proof fn lemma_skip_concat(s: Seq<char>, i: int, a: Seq<char>, t: Seq<char>)
    requires
        0 <= i <= s.len(),
        s.skip(i) == a + t,
    ensures
        i + a.len() <= s.len(),
        s.skip(i + a.len()) == t,
        starts_at(s, i, a),
    decreases 0int,
{
    assert(s.skip(i).len() == s.len() - i);
    assert(s.skip(i + a.len()) =~= t) by {
        assert forall|m: int| 0 <= m < t.len() implies #[trigger] s.skip(i + a.len())[m] == t[m] by {
            assert(s.skip(i + a.len())[m] == s[i + a.len() + m]);
            assert(s.skip(i)[m + a.len()] == s[i + a.len() + m]);
            assert((a + t)[m + a.len()] == t[m]);
        }
    }
    assert(s.subrange(i, i + a.len()) =~= a) by {
        assert forall|m: int| 0 <= m < a.len() implies #[trigger] s.subrange(i, i + a.len())[m]
            == a[m] by {
            assert(s.subrange(i, i + a.len())[m] == s[i + m]);
            assert(s.skip(i)[m] == s[i + m]);
            assert((a + t)[m] == a[m]);
        }
    }
}

/// A decomposition, read the other way: a prefix match plus the matching
/// rest give back the concatenation.
pub proof fn lemma_starts_at_skip(s: Seq<char>, i: int, p: Seq<char>)
    requires
        0 <= i <= s.len(),
        starts_at(s, i, p),
    ensures
        s.skip(i) == p + s.skip(i + p.len()),
{
    assert(s.skip(i) =~= p + s.skip(i + p.len())) by {
        assert forall|m: int| 0 <= m < s.len() - i implies #[trigger] s.skip(i)[m] == (p + s.skip(
            i + p.len(),
        ))[m] by {
            assert(s.skip(i)[m] == s[i + m]);
            if m < p.len() {
                assert(s.subrange(i, i + p.len())[m] == s[i + m]);
            } else {
                assert(s.skip(i + p.len())[m - p.len()] == s[i + m]);
            }
        }
    }
}

/// Consumes the given literal at the position exactly when the text there
/// starts with it.
#[verifier::loop_isolation(false)]
fn p_lit(s: &Vec<char>, i: usize, lit: &str) -> (r: Option<usize>)
    ensures
        r == if starts_at(s@, i as int, lit@) {
            Some((i + lit@.len()) as usize)
        } else {
            None::<usize>
        },
        r matches Some(j) ==> i + lit@.len() == j && j <= s@.len(),
{
    let n = lit.unicode_len();
    if i > s.len() || n > s.len() - i {
        return None;
    }
    let mut k: usize = 0;
    while k < n
        invariant
            0 <= k <= n,
            forall|m: int| 0 <= m < k ==> s@[i + m] == lit@[m],
        decreases n - k,
    {
        if s[i + k] != lit.get_char(k) {
            proof {
                assert(s@.subrange(i as int, i + n) != lit@) by {
                    assert(s@.subrange(i as int, i + n)[k as int] == s@[i + k]);
                }
            }
            return None;
        }
        k = k + 1;
    }
    proof {
        assert(s@.subrange(i as int, i + n) =~= lit@);
    }
    Some(i + n)
}

/// Whether a character is a decimal digit.
pub open spec fn is_digit(c: char) -> bool {
    48 <= c as nat <= 57
}

/// The value of a digit string, most significant digit first.
pub open spec fn digits_val(ds: Seq<char>) -> nat
    decreases ds,
{
    if ds.len() == 0 {
        0
    } else {
        digits_val(ds.drop_last()) * 10 + (if ds.last() as nat >= 48 {
            (ds.last() as nat - 48) as nat
        } else {
            0
        })
    }
}

/// A number's rendering is made of digits, at least one.
pub proof fn lemma_digits_are_digits(n: nat)
    ensures
        spec_digits(n).len() >= 1,
        forall|m: int| 0 <= m < spec_digits(n).len() ==> is_digit(#[trigger] spec_digits(n)[m]),
    decreases n,
{
    if n >= 10 {
        lemma_digits_are_digits(n / 10);
        assert forall|m: int| 0 <= m < spec_digits(n).len() implies is_digit(
            #[trigger] spec_digits(n)[m],
        ) by {
            if m < spec_digits(n / 10).len() {
                assert(spec_digits(n)[m] == spec_digits(n / 10)[m]);
            } else {
                assert(spec_digits(n)[m] == digit_char(n % 10));
            }
        }
    }
}

/// Reading the rendered digits back gives the number.
pub proof fn lemma_digits_val_of(n: nat)
    ensures
        digits_val(spec_digits(n)) == n,
    decreases n,
{
    assert(digits_val(Seq::<char>::empty()) == 0);
    if n < 10 {
        assert(seq![digit_char(n)].drop_last() =~= Seq::<char>::empty());
        assert(seq![digit_char(n)].last() == digit_char(n));
        assert((n + 48) as u8 == n + 48);
        assert(digit_char(n) as nat == n + 48);
    } else {
        lemma_digits_val_of(n / 10);
        assert(spec_digits(n).drop_last() =~= spec_digits(n / 10));
        assert(spec_digits(n).last() == digit_char(n % 10));
        assert((n % 10 + 48) as u8 == n % 10 + 48);
        assert(digit_char(n % 10) as nat == n % 10 + 48);
    }
}

/// A positive number's rendering has no leading zero.
pub proof fn lemma_digits_leading(n: nat)
    ensures
        n > 0 ==> spec_digits(n)[0] != '0',
        n == 0 ==> spec_digits(n) == seq!['0'],
    decreases n,
{
    if n == 0 {
        assert(digit_char(0) == '0');
        assert(spec_digits(0) =~= seq!['0']);
    } else if n < 10 {
        assert((n + 48) as u8 == n + 48);
        assert(digit_char(n) as nat == n + 48);
        assert(('0') as nat == 48);
    } else {
        lemma_digits_leading(n / 10);
        assert(spec_digits(n)[0] == spec_digits(n / 10)[0]) by {
            lemma_digits_are_digits(n / 10);
        }
    }
}

/// The value of a digit prefix never exceeds the value of the whole.
pub proof fn lemma_digits_val_prefix(ds: Seq<char>, k: int)
    requires
        0 <= k <= ds.len(),
    ensures
        digits_val(ds.take(k)) <= digits_val(ds),
    decreases ds.len() - k,
{
    if k < ds.len() {
        lemma_digits_val_prefix(ds, k + 1);
        assert(ds.take(k + 1).drop_last() =~= ds.take(k));
        assert(ds.take(k + 1).last() == ds[k]);
        assert(digits_val(ds.take(k)) <= digits_val(ds.take(k + 1)));
    } else {
        assert(ds.take(k) =~= ds);
    }
}

/// The code point of a character, equal to the character under every
/// spec-level cast.
fn char_code(c: char) -> (r: u32)
    ensures
        r as int == c as int,
        r as nat == c as nat,
{
    proof {
        assert(c as int >= 0);
        assert(c as int <= 0x10FFFF);
    }
    c as u32
}

/// Consumes a decimal number in its canonical rendering: a single zero, or
/// digits without a leading zero. Exactly the rendering of any number is
/// accepted, up to the first character that is not a digit.
#[verifier::loop_isolation(false)]
fn p_digits(s: &Vec<char>, i: usize) -> (r: Option<(usize, usize)>)
    ensures
        r matches Some(p) ==> i < p.1 <= s@.len(),
        forall|n: usize, rest: Seq<char>| #![trigger spec_digits(n as nat) + rest]
            i <= s@.len() && s@.skip(i as int) == spec_digits(n as nat) + rest && (rest.len() == 0
                || !is_digit(rest[0])) ==> r == Some(
                (n, (i + spec_digits(n as nat).len()) as usize),
            ),
{
    if i >= s.len() {
        proof {
            assert forall|n: usize, rest: Seq<char>|
                i <= s@.len() && s@.skip(i as int) == spec_digits(n as nat) + rest && (rest.len()
                    == 0 || !is_digit(rest[0])) implies false by {
                lemma_digits_are_digits(n as nat);
                assert(i as int == s@.len());
                assert(s@.skip(i as int).len() == 0);
                assert((spec_digits(n as nat) + rest).len() >= 1);
            }
        }
        return None;
    }
    let ch0 = s[i];
    let c0 = char_code(ch0);
    proof {
        assert(ch0 == s@[i as int]);
        assert forall|n: usize, rest: Seq<char>|
            i <= s@.len() && s@.skip(i as int) == spec_digits(n as nat) + rest implies s@[i as int]
            == spec_digits(n as nat)[0] by {
            lemma_digits_are_digits(n as nat);
            assert(s@.skip(i as int)[0] == s@[i as int]);
        }
    }
    if c0 < 48 || c0 > 57 {
        proof {
            assert forall|n: usize, rest: Seq<char>|
                i <= s@.len() && s@.skip(i as int) == spec_digits(n as nat) + rest implies false by {
                lemma_digits_are_digits(n as nat);
                assert(is_digit(spec_digits(n as nat)[0]));
                assert(is_digit(ch0));
            }
        }
        return None;
    }
    if c0 == 48 {
        proof {
            assert forall|n: usize, rest: Seq<char>|
                i <= s@.len() && s@.skip(i as int) == spec_digits(n as nat) + rest && (rest.len()
                    == 0 || !is_digit(rest[0])) implies Some((0usize, (i + 1) as usize)) == Some(
                (n, (i + spec_digits(n as nat).len()) as usize),
            ) by {
                lemma_digits_leading(n as nat);
                assert(('0') as int == 48);
                assert(ch0 as int == 48);
                assert(ch0 == '0');
                assert(s@[i as int] == spec_digits(n as nat)[0]);
                if n > 0 {
                    assert(spec_digits(n as nat)[0] != '0');
                }
                assert(n == 0);
                assert(spec_digits(0) == seq!['0']);
            }
        }
        return Some((0, i + 1));
    }
    let mut j = i;
    let mut v: usize = 0;
    let mut stop = false;
    while j < s.len() && !stop
        invariant
            i <= j <= s@.len(),
            v as nat == digits_val(s@.subrange(i as int, j as int)),
            forall|m: int| i <= m < j ==> is_digit(#[trigger] s@[m]),
            stop ==> j < s@.len() && !is_digit(s@[j as int]),
        decreases s@.len() - j, (if stop {
            0int
        } else {
            1
        }),
    {
        let ch = s[j];
        let d = char_code(ch);
        proof {
            assert(ch == s@[j as int]);
        }
        if d < 48 || d > 57 {
            stop = true;
        } else {
            let ghost pre = s@.subrange(i as int, j as int);
            proof {
                assert(s@.subrange(i as int, j + 1).drop_last() =~= pre);
                assert(s@.subrange(i as int, j + 1).last() == s@[j as int]);
                assert(is_digit(ch));
            }
            if v > usize::MAX / 10 {
                proof {
                    lemma_no_valid_digits(s@, i as int, j as int, v as nat, ch as nat);
                }
                return None;
            }
            v = v * 10;
            let dd = (d - 48) as usize;
            proof {
                assert(dd as nat == ch as nat - 48);
            }
            if v > usize::MAX - dd {
                proof {
                    lemma_no_valid_digits(s@, i as int, j as int, (v / 10) as nat, ch as nat);
                }
                return None;
            }
            v = v + dd;
            j = j + 1;
            proof {
                assert(digits_val(s@.subrange(i as int, j as int)) == digits_val(pre) * 10 + (
                ch as nat - 48));
            }
        }
    }
    proof {
        assert forall|n: usize, rest: Seq<char>|
            i <= s@.len() && s@.skip(i as int) == spec_digits(n as nat) + rest && (rest.len() == 0
                || !is_digit(rest[0])) implies Some((v, j)) == Some(
            (n, (i + spec_digits(n as nat).len()) as usize),
        ) by {
            let ds = spec_digits(n as nat);
            lemma_digits_are_digits(n as nat);
            lemma_digits_val_of(n as nat);
            assert forall|m: int| 0 <= m < ds.len() implies s@[i + m] == #[trigger] ds[m] by {
                assert(s@.skip(i as int)[m] == s@[i + m]);
                assert((ds + rest)[m] == ds[m]);
            }
            if ds.len() < s@.len() - i {
                assert(s@.skip(i as int)[ds.len() as int] == s@[i + ds.len()]);
                assert((ds + rest)[ds.len() as int] == rest[0]);
            }
            assert(j - i >= ds.len()) by {
                if j - i < ds.len() {
                    assert(s@[j as int] == ds[j - i]);
                    assert(is_digit(s@[j as int]));
                    assert(j < s@.len());
                }
            }
            assert(j - i <= ds.len()) by {
                if j - i > ds.len() {
                    assert(is_digit(s@[i + ds.len()]));
                    assert(rest.len() > 0 && rest[0] == s@[i + ds.len()]);
                }
            }
            assert(s@.subrange(i as int, j as int) =~= ds);
        }
    }
    if v > 0 {
        Some((v, j))
    } else {
        proof {
            assert forall|n: usize, rest: Seq<char>|
                i <= s@.len() && s@.skip(i as int) == spec_digits(n as nat) + rest && (rest.len()
                    == 0 || !is_digit(rest[0])) implies false by {
                lemma_digits_leading(n as nat);
                assert(s@.skip(i as int)[0] == s@[i as int]);
                assert(('0') as nat == 48);
            }
        }
        None
    }
}

/// Inside a digit run that renders a machine number, the next accumulation
/// step cannot overflow; an overflowing accumulator therefore refutes any
/// claimed rendering.
proof fn lemma_no_valid_digits(s: Seq<char>, i: int, j: int, v: nat, d: nat)
    requires
        0 <= i <= j <= s.len(),
        v == digits_val(s.subrange(i, j)),
        forall|m: int| i <= m < j ==> is_digit(#[trigger] s[m]),
        j < s.len(),
        is_digit(s[j]),
        d == s[j] as nat,
        48 <= d <= 57,
        v * 10 + (d - 48) > usize::MAX,
    ensures
        forall|n: usize, rest: Seq<char>|
            !(i <= s.len() && s.skip(i) == spec_digits(n as nat) + rest && (rest.len() == 0
                || !is_digit(rest[0]))),
{
    assert forall|n: usize, rest: Seq<char>|
        !(i <= s.len() && s.skip(i) == spec_digits(n as nat) + rest && (rest.len() == 0
            || !is_digit(rest[0]))) by {
        if i <= s.len() && s.skip(i) == spec_digits(n as nat) + rest && (rest.len() == 0
            || !is_digit(rest[0])) {
            let ds = spec_digits(n as nat);
            lemma_digits_are_digits(n as nat);
            lemma_digits_val_of(n as nat);
            assert(s.skip(i).len() == s.len() - i);
            assert(ds.len() + rest.len() == s.len() - i);
            assert forall|m: int| 0 <= m < ds.len() implies s[i + m] == #[trigger] ds[m] by {
                assert(s.skip(i)[m] == s[i + m]);
                assert((ds + rest)[m] == ds[m]);
            }
            if ds.len() < s.len() - i {
                assert(s.skip(i)[ds.len() as int] == s[i + ds.len()]);
                assert((ds + rest)[ds.len() as int] == rest[0]);
            }
            assert(j - i < ds.len()) by {
                if j - i >= ds.len() {
                    assert(rest.len() > 0 && rest[0] == s[i + ds.len()]);
                    assert(forall|m: int| i <= m <= j ==> is_digit(#[trigger] s[m]));
                    assert(is_digit(s[i + ds.len()]));
                }
            }
            assert(s.subrange(i, j) =~= ds.take(j - i));
            assert(ds.take(j - i + 1).drop_last() =~= ds.take(j - i));
            assert(ds[j - i] == s[j]);
            assert(ds.take(j - i + 1).last() == s[j]);
            assert(s[j] as nat == d);
            assert(digits_val(ds.take(j - i + 1)) == v * 10 + (d - 48));
            lemma_digits_val_prefix(ds, j - i + 1);
            assert(v * 10 + (d - 48) <= n);
        }
    }
}

/// Where the cursor stands inside a quoted string: after the opening
/// quote and the escapes of the first `k` body characters, the rest of the
/// escaped body, the closing quote and the tail follow.
proof fn lemma_jstr_position(s: Seq<char>, i: int, body: Seq<char>, rest: Seq<char>, k: int)
    requires
        0 <= i <= s.len(),
        s.skip(i) == jstr(body) + rest,
        0 <= k <= body.len(),
    ensures
        i + 1 + esc(body.take(k)).len() + esc(body.skip(k)).len() + 1 + rest.len() == s.len(),
        s.skip(i + 1 + esc(body.take(k)).len()) == esc(body.skip(k)) + seq!['"'] + rest,
{
    lemma_esc_concat(body.take(k), body.skip(k));
    assert(body.take(k) + body.skip(k) =~= body);
    assert(jstr(body) + rest =~= (seq!['"'] + esc(body.take(k))) + (esc(body.skip(k))
        + seq!['"'] + rest)) by {
        assert(esc(body) == esc(body.take(k)) + esc(body.skip(k)));
    }
    lemma_skip_concat(s, i, seq!['"'] + esc(body.take(k)), esc(body.skip(k)) + seq!['"'] + rest);
}

/// Consumes a quoted JSON string, undoing the escapes, or fails. Exactly
/// the quoted escape of any body is accepted.
#[verifier::loop_isolation(false)]
fn p_string(s: &Vec<char>, i: usize) -> (r: Option<(String, usize)>)
    ensures
        r matches Some(p) ==> i < p.1 <= s@.len(),
        forall|body: Seq<char>, rest: Seq<char>| #![trigger jstr(body) + rest]
            i <= s@.len() && plain_name(body) && s@.skip(i as int) == jstr(body) + rest ==> match r {
                Some(p) => p.0@ == body && p.1 == i + 1 + esc(body).len() + 1,
                None => false,
            },
{
    if i >= s.len() || !(s[i] == '"') {
        proof {
            assert forall|body: Seq<char>, rest: Seq<char>|
                i <= s@.len() && plain_name(body) && s@.skip(i as int) == jstr(body) + rest implies false by {
                assert(s@.skip(i as int).len() >= 2);
                assert(s@.skip(i as int)[0] == (jstr(body) + rest)[0] == '"');
                assert(s@.skip(i as int)[0] == s@[i as int]);
            }
        }
        return None;
    }
    let mut j = i + 1;
    let mut out = String::new();
    let ghost gi = i as int;
    while j < s.len()
        invariant
            i < j <= s@.len(),
            forall|body: Seq<char>, rest: Seq<char>|
                gi <= s@.len() && plain_name(body) && s@.skip(gi) == jstr(body) + rest ==> out@.len() <= body.len()
                    && out@ == body.take(out@.len() as int) && j == gi + 1 + esc(
                    body.take(out@.len() as int),
                ).len(),
        decreases s@.len() - j,
    {
        let ghost pre_out = out@;
        let ghost pre_j = j as int;
        proof {
            assert forall|body: Seq<char>, rest: Seq<char>|
                gi <= s@.len() && plain_name(body) && s@.skip(gi) == jstr(body) + rest implies s@.skip(pre_j) == esc(
                body.skip(pre_out.len() as int),
            ) + seq!['"'] + rest && pre_j + esc(body.skip(pre_out.len() as int)).len() + 1
                + rest.len() == s@.len() by {
                lemma_jstr_position(s@, gi, body, rest, pre_out.len() as int);
            }
        }
        let c = s[j];
        if c == '"' {
            proof {
                assert forall|body: Seq<char>, rest: Seq<char>|
                    gi <= s@.len() && plain_name(body) && s@.skip(gi) == jstr(body) + rest implies pre_out == body
                    && pre_j + 1 == gi + 1 + esc(body).len() + 1 by {
                    let k = pre_out.len() as int;
                    let tail = body.skip(k);
                    if k < body.len() {
                        assert(esc(tail)[0] == (esc(tail) + seq!['"'] + rest)[0]);
                        assert(s@.skip(pre_j)[0] == s@[pre_j]);
                        assert(esc(tail) == esc_char(tail[0]) + esc(tail.drop_first()));
                        assert(esc(tail)[0] == esc_char(tail[0])[0]);
                        assert(esc_char(tail[0])[0] != '"') by {
                            if tail[0] == '"' || tail[0] == '\\' || (tail[0] as nat) < 32 {
                                assert(esc_char(tail[0])[0] == '\\');
                                assert(('\\') as nat == 92 && ('"') as nat == 34);
                            } else {
                                assert(esc_char(tail[0])[0] == tail[0]);
                            }
                        }
                        assert(false);
                    }
                    assert(body.take(k) =~= body);
                    assert(tail =~= Seq::<char>::empty());
                    assert(esc(Seq::<char>::empty()) == Seq::<char>::empty());
                    assert(s@.skip(pre_j)[0] == s@[pre_j]);
                }
            }
            return Some((out, j + 1));
        }
        if c == '\\' {
            if j + 1 >= s.len() {
                proof {
                    assert forall|body: Seq<char>, rest: Seq<char>|
                        gi <= s@.len() && plain_name(body) && s@.skip(gi) == jstr(body) + rest implies false by {
                        lemma_jstr_position(s@, gi, body, rest, pre_out.len() as int);
                        let tail = body.skip(pre_out.len() as int);
                        assert(s@.skip(pre_j)[0] == s@[pre_j] == '\\');
                        if tail.len() == 0 {
                            assert(esc(tail) == Seq::<char>::empty());
                            assert(s@[pre_j] == '"');
                            assert(('\\') as nat == 92 && ('"') as nat == 34);
                        } else {
                            assert(esc(tail) == esc_char(tail[0]) + esc(tail.drop_first()));
                            assert(esc_char(tail[0]).len() >= 1);
                            assert(pre_j + 2 <= s@.len()) by {
                                assert(esc_char(tail[0])[0] == s@[pre_j]);
                                assert(esc_char(tail[0])[0] == '\\');
                                assert(esc_char(tail[0]).len() >= 2) by {
                                    if !(tail[0] == '"' || tail[0] == '\\' || (tail[0] as nat)
                                        < 32) {
                                        assert(esc_char(tail[0]) == seq![tail[0]]);
                                    }
                                }
                            }
                        }
                    }
                }
                return None;
            }
            let e = s[j + 1];
            let ghost echar_facts = true;
            proof {
                assert forall|body: Seq<char>, rest: Seq<char>|
                    gi <= s@.len() && plain_name(body) && s@.skip(gi) == jstr(body) + rest implies {
                    let tail = body.skip(pre_out.len() as int);
                    tail.len() > 0 && esc_char(tail[0]).len() >= 2 && esc_char(tail[0])[0] == '\\'
                        && esc_char(tail[0])[1] == s@[pre_j + 1] && !(esc_char(tail[0])
                        == seq![tail[0]])
                } by {
                    let tail = body.skip(pre_out.len() as int);
                    assert(s@.skip(pre_j)[0] == s@[pre_j] == '\\');
                    if tail.len() == 0 {
                        assert(esc(tail) == Seq::<char>::empty());
                        assert(s@[pre_j] == '"');
                        assert(('\\') as nat == 92 && ('"') as nat == 34);
                    }
                    assert(esc(tail) == esc_char(tail[0]) + esc(tail.drop_first()));
                    assert(esc_char(tail[0])[0] == s@[pre_j]);
                    if esc_char(tail[0]) == seq![tail[0]] {
                        assert(tail[0] == '\\');
                        assert(!(esc_char('\\') == seq!['\\']));
                    }
                    assert(esc_char(tail[0]).len() >= 2);
                    assert(esc_char(tail[0])[1] == (esc(tail) + seq!['"'] + rest)[1]);
                    assert(s@.skip(pre_j)[1] == s@[pre_j + 1]);
                }
            }
            if e == '"' {
                push_char(&mut out, '"');
                j = j + 2;
                proof {
                    lemma_step_ok(s@, gi, pre_out, pre_j, out@, j as int);
                }
            } else if e == '\\' {
                push_char(&mut out, '\\');
                j = j + 2;
                proof {
                    lemma_step_ok(s@, gi, pre_out, pre_j, out@, j as int);
                }
            } else if e == 'u' {
                if s.len() - j < 7 {
                    proof {
                        assert forall|body: Seq<char>, rest: Seq<char>|
                            gi <= s@.len() && plain_name(body) && s@.skip(gi) == jstr(body) + rest implies false by {
                            lemma_hex_shape(s@, gi, body, rest, pre_out, pre_j);
                            let tail = body.skip(pre_out.len() as int);
                            assert(tail[0] == body[pre_out.len() as int]);
                            assert(plain_char(body[pre_out.len() as int]));
                        }
                    }
                    return None;
                }
                let h2 = hex_val(s[j + 4]);
                let h3 = hex_val(s[j + 5]);
                let c2 = s[j + 2];
                let c3 = s[j + 3];
                if !(c2 == '0') || !(c3 == '0') || h2 >= 16 || h3 >= 16 {
                    proof {
                        assert forall|body: Seq<char>, rest: Seq<char>|
                            gi <= s@.len() && plain_name(body) && s@.skip(gi) == jstr(body) + rest implies false by {
                            lemma_hex_shape(s@, gi, body, rest, pre_out, pre_j);
                            let tail = body.skip(pre_out.len() as int);
                            assert(tail[0] == body[pre_out.len() as int]);
                            assert(plain_char(body[pre_out.len() as int]));
                        }
                    }
                    return None;
                }
                let v = h2 * 16 + h3;
                if v >= 128 {
                    proof {
                        assert forall|body: Seq<char>, rest: Seq<char>|
                            gi <= s@.len() && plain_name(body) && s@.skip(gi) == jstr(body) + rest implies false by {
                            lemma_hex_shape(s@, gi, body, rest, pre_out, pre_j);
                            let tail = body.skip(pre_out.len() as int);
                            assert(tail[0] == body[pre_out.len() as int]);
                            assert(plain_char(body[pre_out.len() as int]));
                        }
                    }
                    return None;
                }
                push_char(&mut out, ((v as u8) as char));
                j = j + 6;
                proof {
                    assert forall|body: Seq<char>, rest: Seq<char>|
                        gi <= s@.len() && plain_name(body) && s@.skip(gi) == jstr(body) + rest
                        implies out@.len() <= body.len() && out@ == body.take(out@.len() as int)
                        && j == gi + 1 + esc(body.take(out@.len() as int)).len() by {
                        lemma_hex_shape(s@, gi, body, rest, pre_out, pre_j);
                        let tail = body.skip(pre_out.len() as int);
                        assert(tail[0] == body[pre_out.len() as int]);
                        assert(plain_char(body[pre_out.len() as int]));
                    }
                }
            } else {
                proof {
                    assert forall|body: Seq<char>, rest: Seq<char>|
                        gi <= s@.len() && plain_name(body) && s@.skip(gi) == jstr(body) + rest implies false by {
                        let tail = body.skip(pre_out.len() as int);
                        assert(tail.len() > 0 && esc_char(tail[0])[1] == s@[pre_j + 1]);
                        if tail[0] == '"' {
                            assert(esc_char(tail[0])[1] == '"');
                        } else if tail[0] == '\\' {
                            assert(esc_char(tail[0])[1] == '\\');
                        } else {
                            assert((tail[0] as nat) < 32) by {
                                if !((tail[0] as nat) < 32) {
                                    assert(esc_char(tail[0]) == seq![tail[0]]);
                                }
                            }
                            assert(esc_char(tail[0])[1] == 'u');
                        }
                    }
                }
                return None;
            }
        } else {
            push_char(&mut out, c);
            j = j + 1;
            proof {
                assert forall|body: Seq<char>, rest: Seq<char>|
                    gi <= s@.len() && plain_name(body) && s@.skip(gi) == jstr(body) + rest implies out@.len()
                    <= body.len() && out@ == body.take(out@.len() as int) && j == gi + 1 + esc(
                    body.take(out@.len() as int),
                ).len() by {
                    lemma_jstr_position(s@, gi, body, rest, pre_out.len() as int);
                    let tail = body.skip(pre_out.len() as int);
                    assert(s@.skip(pre_j)[0] == s@[pre_j] == c);
                    if tail.len() == 0 {
                        assert(esc(tail) == Seq::<char>::empty());
                        assert(s@[pre_j] == '"');
                        assert(false);
                    }
                    assert(esc(tail) == esc_char(tail[0]) + esc(tail.drop_first()));
                    assert(esc_char(tail[0])[0] == s@[pre_j]);
                    assert(esc_char(tail[0]) == seq![tail[0]]) by {
                        if tail[0] == '"' || tail[0] == '\\' || (tail[0] as nat) < 32 {
                            assert(esc_char(tail[0])[0] == '\\');
                            assert(('\\') as nat == 92);
                        }
                    }
                    assert(tail[0] == c);
                    lemma_take_push(body, pre_out.len() as int);
                    lemma_esc_concat(body.take(pre_out.len() as int), seq![c]);
                    lemma_esc_single(c);
                }
            }
        }
    }
    proof {
        assert forall|body: Seq<char>, rest: Seq<char>|
            gi <= s@.len() && plain_name(body) && s@.skip(gi) == jstr(body) + rest implies false by {
            lemma_jstr_position(s@, gi, body, rest, out@.len() as int);
        }
    }
    None
}

/// Extending a taken prefix by the next element.
proof fn lemma_take_push(body: Seq<char>, k: int)
    requires
        0 <= k < body.len(),
    ensures
        body.take(k).push(body[k]) == body.take(k + 1),
        body.take(k) + seq![body[k]] == body.take(k + 1),
{
    assert(body.take(k).push(body[k]) =~= body.take(k + 1));
    assert(body.take(k) + seq![body[k]] =~= body.take(k + 1));
}

/// After a two-character escape, the invariant step for the simple cases.
proof fn lemma_step_ok(s: Seq<char>, gi: int, pre_out: Seq<char>, pre_j: int, out: Seq<char>, j: int)
    requires
        forall|body: Seq<char>, rest: Seq<char>|
            gi <= s.len() && plain_name(body) && s.skip(gi) == jstr(body) + rest ==> pre_out.len() <= body.len()
                && pre_out == body.take(pre_out.len() as int) && pre_j == gi + 1 + esc(
                body.take(pre_out.len() as int),
            ).len(),
        0 <= gi <= s.len(),
        j == pre_j + 2,
        out.len() == pre_out.len() + 1,
        out == pre_out.push(out.last()),
        out.last() == '"' || out.last() == '\\',
        forall|body: Seq<char>, rest: Seq<char>|
            gi <= s.len() && plain_name(body) && s.skip(gi) == jstr(body) + rest ==> {
                let tail = body.skip(pre_out.len() as int);
                tail.len() > 0 && esc_char(tail[0]).len() >= 2 && esc_char(tail[0])[1] == s[pre_j
                    + 1]
            },
        forall|body: Seq<char>, rest: Seq<char>|
            gi <= s.len() && plain_name(body) && s.skip(gi) == jstr(body) + rest ==> s[pre_j + 1] == out.last(),
    ensures
        forall|body: Seq<char>, rest: Seq<char>|
            gi <= s.len() && plain_name(body) && s.skip(gi) == jstr(body) + rest ==> out.len() <= body.len() && out
                == body.take(out.len() as int) && j == gi + 1 + esc(
                body.take(out.len() as int),
            ).len(),
{
    assert forall|body: Seq<char>, rest: Seq<char>|
        gi <= s.len() && plain_name(body) && s.skip(gi) == jstr(body) + rest implies out.len() <= body.len() && out
        == body.take(out.len() as int) && j == gi + 1 + esc(body.take(out.len() as int)).len() by {
        let k = pre_out.len() as int;
        let tail = body.skip(k);
        assert(tail[0] == '"' || tail[0] == '\\') by {
            if (tail[0] as nat) < 32 {
                assert(esc_char(tail[0])[1] == 'u');
                assert(('u') as nat == 117 && ('"') as nat == 34 && ('\\') as nat == 92);
            } else if !(tail[0] == '"' || tail[0] == '\\') {
                assert(esc_char(tail[0]) == seq![tail[0]]);
            }
        }
        assert(esc_char(tail[0])[1] == tail[0]);
        assert(tail[0] == out.last());
        lemma_take_push(body, k);
        lemma_esc_concat(body.take(k), seq![tail[0]]);
        lemma_esc_single(tail[0]);
        assert(body[k] == tail[0]);
        assert(out =~= body.take(k + 1));
        assert(esc_char(tail[0]).len() == 2);
    }
}

/// The shape of a control character's escape at the cursor, and the hex
/// value of a rendered hexadecimal digit.
proof fn lemma_hex_shape(
    s: Seq<char>,
    gi: int,
    body: Seq<char>,
    rest: Seq<char>,
    pre_out: Seq<char>,
    pre_j: int,
)
    requires
        0 <= gi <= s.len(),
        s.skip(gi) == jstr(body) + rest,
        pre_out.len() <= body.len(),
        pre_out == body.take(pre_out.len() as int),
        pre_j == gi + 1 + esc(body.take(pre_out.len() as int)).len(),
        pre_j < s.len(),
        s[pre_j] == '\\',
        pre_j + 1 < s.len(),
        s[pre_j + 1] == 'u',
    ensures
        ({
            let tail = body.skip(pre_out.len() as int);
            tail.len() > 0 && (tail[0] as nat) < 32 && pre_j + 6 <= s.len() && s[pre_j + 2] == '0'
                && s[pre_j + 3] == '0' && s[pre_j + 4] == hex_char((tail[0] as nat) / 16) && s[pre_j
                + 5] == hex_char((tail[0] as nat) % 16)
        }),
{
    lemma_jstr_position(s, gi, body, rest, pre_out.len() as int);
    let tail = body.skip(pre_out.len() as int);
    assert(s.skip(pre_j)[0] == s[pre_j]);
    if tail.len() == 0 {
        assert(esc(tail) == Seq::<char>::empty());
        assert(s[pre_j] == '"');
        assert(('\\') as nat == 92 && ('"') as nat == 34);
    }
    assert(esc(tail) == esc_char(tail[0]) + esc(tail.drop_first()));
    assert(esc_char(tail[0])[0] == s[pre_j]);
    assert(s.skip(pre_j)[1] == s[pre_j + 1]);
    assert((tail[0] as nat) < 32) by {
        if tail[0] == '"' {
            assert(esc_char(tail[0])[1] == '"');
            assert(('u') as nat == 117 && ('"') as nat == 34);
        } else if tail[0] == '\\' {
            assert(esc_char(tail[0])[1] == '\\');
            assert(('u') as nat == 117 && ('\\') as nat == 92);
        } else if !((tail[0] as nat) < 32) {
            assert(esc_char(tail[0]) == seq![tail[0]]);
            assert(esc_char(tail[0])[1] == esc(tail.drop_first())[0]);
            assert(esc_char(tail[0])[0] == tail[0]);
            assert(tail[0] == '\\');
        }
    }
    assert(esc_char(tail[0]).len() == 6);
    assert(esc(tail).len() >= 6);
    assert(s.skip(pre_j).len() == esc(tail).len() + 1 + rest.len());
    assert(pre_j + 6 <= s.len());
    assert forall|m: int| 0 <= m < 6 implies s[pre_j + m] == #[trigger] esc_char(tail[0])[m] by {
        assert(s.skip(pre_j)[m] == s[pre_j + m]);
        assert((esc(tail) + seq!['"'] + rest)[m] == esc(tail)[m]);
        assert(esc(tail)[m] == esc_char(tail[0])[m]);
    }
    assert(s[pre_j + 2] == '0' && s[pre_j + 3] == '0');
    assert(s[pre_j + 4] == hex_char((tail[0] as nat) / 16));
    assert(s[pre_j + 5] == hex_char((tail[0] as nat) % 16));
}

/// The numeric value of a hexadecimal digit character; sixteen for
/// anything else.
fn hex_val(c: char) -> (r: u32)
    ensures
        forall|d: nat| d < 16 && c == hex_char(d) ==> r == d,
{
    let h = char_code(c);
    proof {
        assert forall|d: nat| d < 16 && c == hex_char(d) implies ({
            if d < 10 {
                h == d + 48
            } else {
                h == d + 87
            }
        }) by {
            if d < 10 {
                assert((d + 48) as u8 == d + 48);
                assert(hex_char(d) as nat == d + 48);
            } else {
                assert((d + 87) as u8 == d + 87);
                assert(hex_char(d) as nat == d + 87);
            }
        }
    }
    if h >= 48 && h <= 57 {
        h - 48
    } else if h >= 97 && h <= 102 {
        h - 87
    } else {
        16
    }
}

/// A hexadecimal digit's rendering reads back to its value.
proof fn lemma_hex_val(d: nat)
    requires
        d < 16,
    ensures
        hex_char(d) as nat == if d < 10 {
            d + 48
        } else {
            d + 87
        },
{
    if d < 10 {
        assert((d + 48) as u8 == d + 48);
    } else {
        assert((d + 87) as u8 == d + 87);
    }
}

/// Consumes `null` or a number, or fails. Exactly the rendering of any
/// optional number is accepted, up to the first non-digit.
fn p_opt(s: &Vec<char>, i: usize) -> (r: Option<(Option<usize>, usize)>)
    ensures
        r matches Some(p) ==> i < p.1 <= s@.len(),
        forall|o: Option<usize>, rest: Seq<char>| #![trigger jopt(o) + rest]
            i <= s@.len() && s@.skip(i as int) == jopt(o) + rest && (rest.len() == 0 || !is_digit(
                rest[0],
            )) ==> r == Some((o, (i + jopt(o).len()) as usize)),
{
    proof {
        reveal_strlit("null");
        assert("null"@ =~= seq!['n', 'u', 'l', 'l']);
    }
    match p_lit(s, i, "null") {
        Some(j) => {
            proof {
                assert forall|o: Option<usize>, rest: Seq<char>|
                    i <= s@.len() && s@.skip(i as int) == jopt(o) + rest && (rest.len() == 0
                        || !is_digit(rest[0])) implies Some((None::<usize>, j)) == Some(
                    (o, (i + jopt(o).len()) as usize),
                ) by {
                    match o {
                        Some(v) => {
                            lemma_digits_are_digits(v as nat);
                            assert(s@.subrange(i as int, i + 4)[0] == s@[i as int]);
                            assert(s@.skip(i as int)[0] == s@[i as int]);
                            assert(s@[i as int] == 'n');
                            assert(spec_digits(v as nat)[0] == s@[i as int]);
                            assert(is_digit('n') == false) by {
                                assert(('n') as nat == 110);
                            }
                            assert(false);
                        },
                        None => {},
                    }
                }
            }
            Some((None, j))
        },
        None => {
            let r2 = match p_digits(s, i) {
                Some((v, j)) => Some((Some(v), j)),
                None => None,
            };
            proof {
                assert forall|o: Option<usize>, rest: Seq<char>|
                    i <= s@.len() && s@.skip(i as int) == jopt(o) + rest && (rest.len() == 0
                        || !is_digit(rest[0])) implies r2 == Some(
                    (o, (i + jopt(o).len()) as usize),
                ) by {
                    if o is None {
                        lemma_skip_concat(s@, i as int, seq!['n', 'u', 'l', 'l'], rest);
                        assert(starts_at(s@, i as int, "null"@));
                        assert(false);
                    }
                }
            }
            r2
        },
    }
}

/// Consumes `true` or `false`, or fails. Exactly the rendering of any
/// boolean is accepted.
fn p_bool(s: &Vec<char>, i: usize) -> (r: Option<(bool, usize)>)
    ensures
        r matches Some(p) ==> i < p.1 <= s@.len(),
        forall|b: bool, rest: Seq<char>| #![trigger jbool(b) + rest]
            i <= s@.len() && s@.skip(i as int) == jbool(b) + rest ==> r == Some(
                (b, (i + jbool(b).len()) as usize),
            ),
{
    proof {
        reveal_strlit("true");
        reveal_strlit("false");
        assert("true"@ =~= seq!['t', 'r', 'u', 'e']);
        assert("false"@ =~= seq!['f', 'a', 'l', 's', 'e']);
    }
    match p_lit(s, i, "true") {
        Some(j) => {
            proof {
                assert forall|b: bool, rest: Seq<char>|
                    i <= s@.len() && s@.skip(i as int) == jbool(b) + rest implies Some((true, j))
                    == Some((b, (i + jbool(b).len()) as usize)) by {
                    assert(s@.subrange(i as int, i + 4)[0] == s@[i as int]);
                    assert(s@.skip(i as int)[0] == s@[i as int]);
                    if !b {
                        assert(s@[i as int] == 'f');
                        assert(('t') as nat == 116 && ('f') as nat == 102);
                    }
                }
            }
            Some((true, j))
        },
        None => match p_lit(s, i, "false") {
            Some(j) => {
                proof {
                    assert forall|b: bool, rest: Seq<char>|
                        i <= s@.len() && s@.skip(i as int) == jbool(b) + rest implies Some(
                        (false, j),
                    ) == Some((b, (i + jbool(b).len()) as usize)) by {
                        if b {
                            lemma_skip_concat(s@, i as int, seq!['t', 'r', 'u', 'e'], rest);
                            assert(starts_at(s@, i as int, "true"@));
                        }
                    }
                }
                Some((false, j))
            },
            None => {
                proof {
                    assert forall|b: bool, rest: Seq<char>|
                        i <= s@.len() && s@.skip(i as int) == jbool(b) + rest implies false by {
                        if b {
                            lemma_skip_concat(s@, i as int, seq!['t', 'r', 'u', 'e'], rest);
                        } else {
                            lemma_skip_concat(s@, i as int, seq!['f', 'a', 'l', 's', 'e'], rest);
                        }
                    }
                }
                None
            },
        },
    }
}

/// Every entry of a plain sequence is plain.
proof fn lemma_plain_trees_elem(es: Seq<TreeV>, k: int)
    requires
        plain_trees(es),
        0 <= k < es.len(),
    ensures
        plain_tree(es[k]),
    decreases es,
{
    if k > 0 {
        assert(es.drop_first()[k - 1] == es[k]);
        lemma_plain_trees_elem(es.drop_first(), k - 1);
    }
}

/// An encoded entry begins with an opening brace.
proof fn lemma_enc_tree_first(t: TreeV)
    ensures
        enc_tree(t).len() >= 1,
        enc_tree(t)[0] == '{',
{
    reveal_strlit("{\"Task\":{\"name\":");
    reveal_strlit("{\"Folder\":{\"name\":");
    match t {
        TreeV::Task { name, done, id } => {
            assert(enc_tree(t)[0] == "{\"Task\":{\"name\":"@[0]);
        },
        TreeV::Folder { name, entries, parent, id } => {
            assert(enc_tree(t)[0] == "{\"Folder\":{\"name\":"@[0]);
        },
    }
}

/// The layout of an encoded task at the cursor.
#[verifier::rlimit(100)]
proof fn lemma_task_layout(s: Seq<char>, i: int, t: TreeV, rest: Seq<char>)
    requires
        0 <= i <= s.len(),
        t is Task,
        s.skip(i) == enc_tree(t) + rest,
    ensures
        starts_at(s, i, "{\"Task\":{\"name\":"@),
        s.skip(i + "{\"Task\":{\"name\":"@.len()) == jstr(t->Task_name) + (",\"done\":"@ + (jbool(
            t->Task_done,
        ) + (",\"id\":"@ + (spec_digits(t->Task_id as nat) + ("}}"@ + rest))))),
{
    assert(enc_tree(t) + rest =~= "{\"Task\":{\"name\":"@ + (jstr(t->Task_name) + (",\"done\":"@
        + (jbool(t->Task_done) + (",\"id\":"@ + (spec_digits(t->Task_id as nat) + ("}}"@
        + rest)))))));
    lemma_skip_concat(
        s,
        i,
        "{\"Task\":{\"name\":"@,
        jstr(t->Task_name) + (",\"done\":"@ + (jbool(t->Task_done) + (",\"id\":"@ + (spec_digits(
            t->Task_id as nat,
        ) + ("}}"@ + rest))))),
    );
}

/// The layout of an encoded folder at the cursor.
#[verifier::rlimit(100)]
proof fn lemma_folder_layout(s: Seq<char>, i: int, t: TreeV, rest: Seq<char>)
    requires
        0 <= i <= s.len(),
        t is Folder,
        s.skip(i) == enc_tree(t) + rest,
    ensures
        starts_at(s, i, "{\"Folder\":{\"name\":"@),
        s.skip(i + "{\"Folder\":{\"name\":"@.len()) == jstr(t->Folder_name) + (",\"entries\":["@
            + (enc_trees(t->Folder_entries) + ("],\"parent\":"@ + (jopt(t->Folder_parent) + (
        ",\"id\":"@ + (spec_digits(t->Folder_id as nat) + ("}}"@ + rest))))))),
{
    assert(enc_tree(t) + rest =~= "{\"Folder\":{\"name\":"@ + (jstr(t->Folder_name) + (
    ",\"entries\":["@ + (enc_trees(t->Folder_entries) + ("],\"parent\":"@ + (jopt(
        t->Folder_parent,
    ) + (",\"id\":"@ + (spec_digits(t->Folder_id as nat) + ("}}"@ + rest)))))))));
    lemma_skip_concat(
        s,
        i,
        "{\"Folder\":{\"name\":"@,
        jstr(t->Folder_name) + (",\"entries\":["@ + (enc_trees(t->Folder_entries) + (
        "],\"parent\":"@ + (jopt(t->Folder_parent) + (",\"id\":"@ + (spec_digits(
            t->Folder_id as nat,
        ) + ("}}"@ + rest))))))),
    );
}

/// Consumes the fields of an encoded task after its opening tag.
#[verifier::loop_isolation(false)]
#[verifier::rlimit(100)]
fn p_task_fields(s: &Vec<char>, i: usize, j1: usize) -> (r: Option<(Entry, usize)>)
    requires
        i < j1 <= s@.len(),
    ensures
        r matches Some(p) ==> i < p.1 <= s@.len(),
        forall|t: TreeV, rest: Seq<char>| #![trigger enc_tree(t) + rest]
            i <= s@.len() && plain_tree(t) && s@.skip(i as int) == enc_tree(t) + rest && t is Task
                && j1 == i + "{\"Task\":{\"name\":"@.len() ==> match r {
                Some(p) => p.0@ == t && p.1 == i + enc_tree(t).len(),
                None => false,
            },
    decreases s@.len() - i, 0int,
{
    proof {
        reveal_strlit("{\"Task\":{\"name\":");
        reveal_strlit("{\"Folder\":{\"name\":");
        reveal_strlit(",\"done\":");
        reveal_strlit(",\"entries\":[");
        reveal_strlit("],\"parent\":");
        reveal_strlit(",\"id\":");
        reveal_strlit("}}");
    }
    let slen = s.len();
    proof {
        assert(s@.len() <= usize::MAX);
    }
    let ghost hyp = |t: TreeV, rest: Seq<char>|
        i <= s@.len() && plain_tree(t) && s@.skip(i as int) == enc_tree(t) + rest && t is Task
            && j1 == i + "{\"Task\":{\"name\":"@.len();

            proof {
                assert forall|t: TreeV, rest: Seq<char>| i <= s@.len() && plain_tree(t) && s@.skip(i as int) == enc_tree(t) + rest && t is Task && j1 == i + "{\"Task\":{\"name\":"@.len() implies t is Task
                    && s@.skip(j1 as int) == jstr(t->Task_name) + (",\"done\":"@ + (jbool(
                    t->Task_done,
                ) + (",\"id\":"@ + (spec_digits(t->Task_id as nat) + ("}}"@ + rest))))) by {
                    if t is Folder {
                        lemma_folder_layout(s@, i as int, t, rest);
                        assert(s@.subrange(i as int, i + 16)[2] == s@[i + 2]);
                        assert(s@.subrange(i as int, i + 18)[2] == s@[i + 2]);
                        assert("{\"Task\":{\"name\":"@[2] != "{\"Folder\":{\"name\":"@[2]);
                        assert(false);
                    }
                    lemma_task_layout(s@, i as int, t, rest);
                }
            }
            let (name, j2) = match p_string(s, j1) {
                Some(p) => p,
                None => {
                    proof {
                        assert forall|t: TreeV, rest: Seq<char>| i <= s@.len() && plain_tree(t) && s@.skip(i as int) == enc_tree(t) + rest && t is Task && j1 == i + "{\"Task\":{\"name\":"@.len() implies false by {}
                    }
                    return None;
                },
            };
            proof {
                assert forall|t: TreeV, rest: Seq<char>| i <= s@.len() && plain_tree(t) && s@.skip(i as int) == enc_tree(t) + rest && t is Task && j1 == i + "{\"Task\":{\"name\":"@.len() implies name@ == t->Task_name
                    && s@.skip(j2 as int) == ",\"done\":"@ + (jbool(t->Task_done) + (",\"id\":"@
                    + (spec_digits(t->Task_id as nat) + ("}}"@ + rest)))) by {
                    lemma_skip_concat(
                        s@,
                        j1 as int,
                        jstr(t->Task_name),
                        ",\"done\":"@ + (jbool(t->Task_done) + (",\"id\":"@ + (spec_digits(
                            t->Task_id as nat,
                        ) + ("}}"@ + rest)))),
                    );
                }
            }
            let j3 = match p_lit(s, j2, ",\"done\":") {
                Some(j) => j,
                None => {
                    proof {
                        assert forall|t: TreeV, rest: Seq<char>| i <= s@.len() && plain_tree(t) && s@.skip(i as int) == enc_tree(t) + rest && t is Task && j1 == i + "{\"Task\":{\"name\":"@.len() implies false by {
                            lemma_skip_concat(
                                s@,
                                j2 as int,
                                ",\"done\":"@,
                                jbool(t->Task_done) + (",\"id\":"@ + (spec_digits(
                                    t->Task_id as nat,
                                ) + ("}}"@ + rest))),
                            );
                        }
                    }
                    return None;
                },
            };
            proof {
                assert forall|t: TreeV, rest: Seq<char>| i <= s@.len() && plain_tree(t) && s@.skip(i as int) == enc_tree(t) + rest && t is Task && j1 == i + "{\"Task\":{\"name\":"@.len() implies s@.skip(j3 as int)
                    == jbool(t->Task_done) + (",\"id\":"@ + (spec_digits(t->Task_id as nat) + (
                "}}"@ + rest))) by {
                    lemma_skip_concat(
                        s@,
                        j2 as int,
                        ",\"done\":"@,
                        jbool(t->Task_done) + (",\"id\":"@ + (spec_digits(t->Task_id as nat) + (
                        "}}"@ + rest))),
                    );
                }
            }
            let (done, j4) = match p_bool(s, j3) {
                Some(p) => p,
                None => {
                    proof {
                        assert forall|t: TreeV, rest: Seq<char>| i <= s@.len() && plain_tree(t) && s@.skip(i as int) == enc_tree(t) + rest && t is Task && j1 == i + "{\"Task\":{\"name\":"@.len() implies false by {}
                    }
                    return None;
                },
            };
            proof {
                assert forall|t: TreeV, rest: Seq<char>| i <= s@.len() && plain_tree(t) && s@.skip(i as int) == enc_tree(t) + rest && t is Task && j1 == i + "{\"Task\":{\"name\":"@.len() implies done == t->Task_done
                    && s@.skip(j4 as int) == ",\"id\":"@ + (spec_digits(t->Task_id as nat) + ("}}"@
                    + rest)) by {
                    lemma_task_layout(s@, i as int, t, rest);
                    lemma_skip_concat(
                        s@,
                        j1 as int,
                        jstr(t->Task_name),
                        ",\"done\":"@ + (jbool(t->Task_done) + (",\"id\":"@ + (spec_digits(
                            t->Task_id as nat,
                        ) + ("}}"@ + rest)))),
                    );
                    lemma_skip_concat(
                        s@,
                        j2 as int,
                        ",\"done\":"@,
                        jbool(t->Task_done) + (",\"id\":"@ + (spec_digits(t->Task_id as nat) + (
                        "}}"@ + rest))),
                    );
                    lemma_skip_concat(
                        s@,
                        j3 as int,
                        jbool(t->Task_done),
                        ",\"id\":"@ + (spec_digits(t->Task_id as nat) + ("}}"@ + rest)),
                    );
                    assert(s@.skip(j3 as int) == jbool(t->Task_done) + (",\"id\":"@ + (
                    spec_digits(t->Task_id as nat) + ("}}"@ + rest))));
                    assert(done == t->Task_done);
                    assert(s@.skip(j3 as int).len() == s@.len() - j3);
                    assert(j3 + jbool(t->Task_done).len() <= s@.len());
                    assert(j4 as int == j3 + jbool(t->Task_done).len());
                    assert(s@.skip(j4 as int) == ",\"id\":"@ + (spec_digits(t->Task_id as nat)
                        + ("}}"@ + rest)));
                }
            }
            let j5 = match p_lit(s, j4, ",\"id\":") {
                Some(j) => j,
                None => {
                    proof {
                        assert forall|t: TreeV, rest: Seq<char>| i <= s@.len() && plain_tree(t) && s@.skip(i as int) == enc_tree(t) + rest && t is Task && j1 == i + "{\"Task\":{\"name\":"@.len() implies false by {
                            lemma_skip_concat(
                                s@,
                                j4 as int,
                                ",\"id\":"@,
                                spec_digits(t->Task_id as nat) + ("}}"@ + rest),
                            );
                        }
                    }
                    return None;
                },
            };
            proof {
                assert forall|t: TreeV, rest: Seq<char>| i <= s@.len() && plain_tree(t) && s@.skip(i as int) == enc_tree(t) + rest && t is Task && j1 == i + "{\"Task\":{\"name\":"@.len() implies s@.skip(j5 as int)
                    == spec_digits(t->Task_id as nat) + ("}}"@ + rest) by {
                    lemma_skip_concat(
                        s@,
                        j4 as int,
                        ",\"id\":"@,
                        spec_digits(t->Task_id as nat) + ("}}"@ + rest),
                    );
                }
            }
            let (id, j6) = match p_digits(s, j5) {
                Some(p) => p,
                None => {
                    proof {
                        assert forall|t: TreeV, rest: Seq<char>| i <= s@.len() && plain_tree(t) && s@.skip(i as int) == enc_tree(t) + rest && t is Task && j1 == i + "{\"Task\":{\"name\":"@.len() implies false by {
                            assert(("}}"@ + rest)[0] == '}');
                            assert(('}') as nat == 125);
                        }
                    }
                    return None;
                },
            };
            proof {
                assert forall|t: TreeV, rest: Seq<char>| i <= s@.len() && plain_tree(t) && s@.skip(i as int) == enc_tree(t) + rest && t is Task && j1 == i + "{\"Task\":{\"name\":"@.len() implies id == t->Task_id
                    && s@.skip(j6 as int) == "}}"@ + rest by {
                    lemma_task_layout(s@, i as int, t, rest);
                    lemma_skip_concat(
                        s@,
                        j1 as int,
                        jstr(t->Task_name),
                        ",\"done\":"@ + (jbool(t->Task_done) + (",\"id\":"@ + (spec_digits(
                            t->Task_id as nat,
                        ) + ("}}"@ + rest)))),
                    );
                    lemma_skip_concat(
                        s@,
                        j2 as int,
                        ",\"done\":"@,
                        jbool(t->Task_done) + (",\"id\":"@ + (spec_digits(t->Task_id as nat) + (
                        "}}"@ + rest))),
                    );
                    lemma_skip_concat(
                        s@,
                        j3 as int,
                        jbool(t->Task_done),
                        ",\"id\":"@ + (spec_digits(t->Task_id as nat) + ("}}"@ + rest)),
                    );
                    lemma_skip_concat(
                        s@,
                        j4 as int,
                        ",\"id\":"@,
                        spec_digits(t->Task_id as nat) + ("}}"@ + rest),
                    );
                    assert(("}}"@ + rest)[0] == '}');
                    assert(('}') as nat == 125);
                    lemma_skip_concat(s@, j5 as int, spec_digits(t->Task_id as nat), "}}"@ + rest);
                    assert(s@.skip(j5 as int) == spec_digits(t->Task_id as nat) + ("}}"@ + rest));
                    assert(id == t->Task_id);
                    assert(s@.skip(j5 as int).len() == s@.len() - j5);
                    assert(j5 + spec_digits(t->Task_id as nat).len() <= s@.len());
                    assert(j6 as int == j5 + spec_digits(t->Task_id as nat).len());
                    assert(s@.skip(j6 as int) == "}}"@ + rest);
                }
            }
            let j7 = match p_lit(s, j6, "}}") {
                Some(j) => j,
                None => {
                    proof {
                        assert forall|t: TreeV, rest: Seq<char>| i <= s@.len() && plain_tree(t) && s@.skip(i as int) == enc_tree(t) + rest && t is Task && j1 == i + "{\"Task\":{\"name\":"@.len() implies false by {
                            lemma_skip_concat(s@, j6 as int, "}}"@, rest);
                        }
                    }
                    return None;
                },
            };
            let e = Entry::Task(Task { name, done, id });
            proof {
                assert forall|t: TreeV, rest: Seq<char>| i <= s@.len() && plain_tree(t) && s@.skip(i as int) == enc_tree(t) + rest && t is Task && j1 == i + "{\"Task\":{\"name\":"@.len() implies e@ == t && j7 == i
                    + enc_tree(t).len() by {
                    assert(e@ =~= t);
                }
            }
            Some((e, j7))
}

/// Consumes the fields of an encoded folder after its opening tag.
#[verifier::loop_isolation(false)]
#[verifier::rlimit(100)]
fn p_folder_fields(s: &Vec<char>, i: usize) -> (r: Option<(Entry, usize)>)
    ensures
        r matches Some(p) ==> i < p.1 <= s@.len(),
        forall|t: TreeV, rest: Seq<char>| #![trigger enc_tree(t) + rest]
            i <= s@.len() && plain_tree(t) && s@.skip(i as int) == enc_tree(t) + rest
                && t is Folder ==> match r {
                Some(p) => p.0@ == t && p.1 == i + enc_tree(t).len(),
                None => false,
            },
    decreases s@.len() - i, 0int,
{
    proof {
        reveal_strlit("{\"Task\":{\"name\":");
        reveal_strlit("{\"Folder\":{\"name\":");
        reveal_strlit(",\"done\":");
        reveal_strlit(",\"entries\":[");
        reveal_strlit("],\"parent\":");
        reveal_strlit(",\"id\":");
        reveal_strlit("}}");
    }
    let slen = s.len();
    proof {
        assert(s@.len() <= usize::MAX);
    }
    let ghost hyp = |t: TreeV, rest: Seq<char>|
        i <= s@.len() && plain_tree(t) && s@.skip(i as int) == enc_tree(t) + rest && t is Folder;
            let j1 = match p_lit(s, i, "{\"Folder\":{\"name\":") {
                Some(j) => j,
                None => {
                    proof {
                        assert forall|t: TreeV, rest: Seq<char>| i <= s@.len() && plain_tree(t) && s@.skip(i as int) == enc_tree(t) + rest && t is Folder implies false by {
                            if t is Task {
                                lemma_task_layout(s@, i as int, t, rest);
                            } else {
                                lemma_folder_layout(s@, i as int, t, rest);
                            }
                        }
                    }
                    return None;
                },
            };
            proof {
                assert forall|t: TreeV, rest: Seq<char>| i <= s@.len() && plain_tree(t) && s@.skip(i as int) == enc_tree(t) + rest && t is Folder implies t is Folder
                    && s@.skip(j1 as int) == jstr(t->Folder_name) + (",\"entries\":["@ + (
                enc_trees(t->Folder_entries) + ("],\"parent\":"@ + (jopt(t->Folder_parent) + (
                ",\"id\":"@ + (spec_digits(t->Folder_id as nat) + ("}}"@ + rest))))))) by {
                    if t is Task {
                        lemma_task_layout(s@, i as int, t, rest);
                        assert(s@.subrange(i as int, i + 16)[2] == s@[i + 2]);
                        assert(s@.subrange(i as int, i + 18)[2] == s@[i + 2]);
                        assert("{\"Task\":{\"name\":"@[2] != "{\"Folder\":{\"name\":"@[2]);
                        assert(false);
                    }
                    lemma_folder_layout(s@, i as int, t, rest);
                }
            }
            let (name, j2) = match p_string(s, j1) {
                Some(p) => p,
                None => {
                    proof {
                        assert forall|t: TreeV, rest: Seq<char>| i <= s@.len() && plain_tree(t) && s@.skip(i as int) == enc_tree(t) + rest && t is Folder implies false by {}
                    }
                    return None;
                },
            };
            proof {
                assert forall|t: TreeV, rest: Seq<char>| i <= s@.len() && plain_tree(t) && s@.skip(i as int) == enc_tree(t) + rest && t is Folder implies name@
                    == t->Folder_name && s@.skip(j2 as int) == ",\"entries\":["@ + (enc_trees(
                    t->Folder_entries,
                ) + ("],\"parent\":"@ + (jopt(t->Folder_parent) + (",\"id\":"@ + (spec_digits(
                    t->Folder_id as nat,
                ) + ("}}"@ + rest)))))) by {
                    lemma_skip_concat(
                        s@,
                        j1 as int,
                        jstr(t->Folder_name),
                        ",\"entries\":["@ + (enc_trees(t->Folder_entries) + ("],\"parent\":"@ + (
                        jopt(t->Folder_parent) + (",\"id\":"@ + (spec_digits(t->Folder_id as nat)
                            + ("}}"@ + rest)))))),
                    );
                }
            }
            let j3 = match p_lit(s, j2, ",\"entries\":[") {
                Some(j) => j,
                None => {
                    proof {
                        assert forall|t: TreeV, rest: Seq<char>| i <= s@.len() && plain_tree(t) && s@.skip(i as int) == enc_tree(t) + rest && t is Folder implies false by {
                            lemma_skip_concat(
                                s@,
                                j2 as int,
                                ",\"entries\":["@,
                                enc_trees(t->Folder_entries) + ("],\"parent\":"@ + (jopt(
                                    t->Folder_parent,
                                ) + (",\"id\":"@ + (spec_digits(t->Folder_id as nat) + ("}}"@
                                    + rest))))),
                            );
                        }
                    }
                    return None;
                },
            };
            proof {
                assert forall|t: TreeV, rest: Seq<char>| i <= s@.len() && plain_tree(t) && s@.skip(i as int) == enc_tree(t) + rest && t is Folder implies s@.skip(j3 as int)
                    == enc_trees(t->Folder_entries) + ("],\"parent\":"@ + (jopt(t->Folder_parent)
                    + (",\"id\":"@ + (spec_digits(t->Folder_id as nat) + ("}}"@ + rest))))) by {
                    lemma_skip_concat(
                        s@,
                        j2 as int,
                        ",\"entries\":["@,
                        enc_trees(t->Folder_entries) + ("],\"parent\":"@ + (jopt(t->Folder_parent)
                            + (",\"id\":"@ + (spec_digits(t->Folder_id as nat) + ("}}"@
                            + rest))))),
                    );
                }
            }
            let mut kids: Vec<Entry> = Vec::new();
            let mut cur = j3;
            if !(cur < s.len() && s[cur] == ']') {
                proof {
                    assert forall|t: TreeV, rest: Seq<char>| #[trigger] hyp(t, rest) implies t->Folder_entries.len() > 0
                        && s@.skip(cur as int) == enc_tree(t->Folder_entries[0]) + (enc_list(
                        t->Folder_entries.drop_first(),
                    ) + ("],\"parent\":"@ + (jopt(t->Folder_parent) + (",\"id\":"@ + (
                    spec_digits(t->Folder_id as nat) + ("}}"@ + rest)))))) by {
                        let tes = t->Folder_entries;
                        if tes.len() == 0 {
                            assert(enc_trees(tes) == Seq::<char>::empty());
                            assert(s@.skip(cur as int)[0] == s@[cur as int]);
                            assert((enc_trees(tes) + ("],\"parent\":"@ + (jopt(t->Folder_parent)
                                + (",\"id\":"@ + (spec_digits(t->Folder_id as nat) + ("}}"@
                                + rest))))))[0] == "],\"parent\":"@[0]);
                            assert(s@[cur as int] == ']');
                            assert(false);
                        }
                        assert(enc_trees(tes) + ("],\"parent\":"@ + (jopt(t->Folder_parent) + (
                        ",\"id\":"@ + (spec_digits(t->Folder_id as nat) + ("}}"@ + rest))))) =~=
                        enc_tree(tes[0]) + (enc_list(tes.drop_first()) + ("],\"parent\":"@ + (
                        jopt(t->Folder_parent) + (",\"id\":"@ + (spec_digits(t->Folder_id as nat)
                            + ("}}"@ + rest)))))));
                    }
                }
                let mut more = true;
                while more
                    invariant
                        i < cur <= s@.len(),
                        forall|t: TreeV, rest: Seq<char>|
                            #[trigger] hyp(t, rest) ==> {
                                let tes = t->Folder_entries;
                                let k = Entry::seq_view(kids@).len() as int;
                                &&& k <= tes.len()
                                &&& Entry::seq_view(kids@) == tes.take(k)
                                &&& if more {
                                    k < tes.len() && s@.skip(cur as int) == enc_tree(tes[k]) + (
                                    enc_list(tes.skip(k + 1)) + ("],\"parent\":"@ + (jopt(
                                        t->Folder_parent,
                                    ) + (",\"id\":"@ + (spec_digits(t->Folder_id as nat) + ("}}"@
                                        + rest))))))
                                } else {
                                    k == tes.len() && s@.skip(cur as int) == "],\"parent\":"@ + (
                                    jopt(t->Folder_parent) + (",\"id\":"@ + (spec_digits(
                                        t->Folder_id as nat,
                                    ) + ("}}"@ + rest))))
                                }
                            },
                    decreases s@.len() - cur,
                {
                    let ghost pre_kids = kids@;
                    let ghost pre_cur = cur as int;
                    let sub = p_tree(s, cur);
                    match sub {
                        None => {
                            proof {
                                assert forall|t: TreeV, rest: Seq<char>| i <= s@.len() && plain_tree(t) && s@.skip(i as int) == enc_tree(t) + rest && t is Folder implies false by {
                                    assert(hyp(t, rest));
                                    let tes = t->Folder_entries;
                                    let k = Entry::seq_view(pre_kids).len() as int;
                                    lemma_plain_trees_elem(tes, k);
                                }
                            }
                            return None;
                        },
                        Some((e, k2)) => {
                            kids.push(e);
                            cur = k2;
                            proof {
                                crate::tree::lemma_seq_view_push(pre_kids, e);
                            }
                            if cur < s.len() && s[cur] == ',' {
                                cur = cur + 1;
                                proof {
                                    assert forall|t: TreeV, rest: Seq<char>| #[trigger] hyp(
                                        t,
                                        rest,
                                    ) implies {
                                        let tes = t->Folder_entries;
                                        let k = Entry::seq_view(kids@).len() as int;
                                        &&& k <= tes.len()
                                        &&& Entry::seq_view(kids@) == tes.take(k)
                                        &&& k < tes.len()
                                        &&& s@.skip(cur as int) == enc_tree(tes[k]) + (enc_list(
                                            tes.skip(k + 1),
                                        ) + ("],\"parent\":"@ + (jopt(t->Folder_parent) + (
                                        ",\"id\":"@ + (spec_digits(t->Folder_id as nat) + ("}}"@
                                            + rest))))))
                                    } by {
                                        assert(hyp(t, rest));
                                        let tes = t->Folder_entries;
                                        let k0 = Entry::seq_view(pre_kids).len() as int;
                                        lemma_plain_trees_elem(tes, k0);
                                        assert(e@ == tes[k0]);
                                        assert(Entry::seq_view(kids@) =~= tes.take(k0 + 1));
                                        lemma_skip_concat(
                                            s@,
                                            pre_cur,
                                            enc_tree(tes[k0]),
                                            enc_list(tes.skip(k0 + 1)) + ("],\"parent\":"@ + (
                                            jopt(t->Folder_parent) + (",\"id\":"@ + (spec_digits(
                                                t->Folder_id as nat,
                                            ) + ("}}"@ + rest))))),
                                        );
                                        if k0 + 1 == tes.len() {
                                            assert(enc_list(tes.skip(k0 + 1)) =~= Seq::<
                                                char,
                                            >::empty()) by {
                                                assert(tes.skip(k0 + 1).len() == 0);
                                            }
                                            assert(s@.skip(k2 as int)[0] == s@[k2 as int]);
                                            assert(s@[k2 as int] == ']');
                                            assert((']') as nat == 93 && (',') as nat == 44);
                                            assert(false);
                                        }
                                        assert(tes.skip(k0 + 1)[0] == tes[k0 + 1]);
                                        assert(tes.skip(k0 + 1).drop_first() =~= tes.skip(k0 + 2));
                                        assert(enc_list(tes.skip(k0 + 1)) == seq![','] + enc_tree(
                                            tes[k0 + 1],
                                        ) + enc_list(tes.skip(k0 + 2)));
                                        assert(s@.skip(k2 as int) =~= seq![','] + (enc_tree(
                                            tes[k0 + 1],
                                        ) + (enc_list(tes.skip(k0 + 2)) + ("],\"parent\":"@ + (
                                        jopt(t->Folder_parent) + (",\"id\":"@ + (spec_digits(
                                            t->Folder_id as nat,
                                        ) + ("}}"@ + rest))))))));
                                        lemma_skip_concat(
                                            s@,
                                            k2 as int,
                                            seq![','],
                                            enc_tree(tes[k0 + 1]) + (enc_list(tes.skip(k0 + 2)) + (
                                            "],\"parent\":"@ + (jopt(t->Folder_parent) + (
                                            ",\"id\":"@ + (spec_digits(t->Folder_id as nat) + (
                                            "}}"@ + rest)))))),
                                        );
                                    }
                                }
                            } else {
                                more = false;
                                proof {
                                    assert forall|t: TreeV, rest: Seq<char>| #[trigger] hyp(
                                        t,
                                        rest,
                                    ) implies {
                                        let tes = t->Folder_entries;
                                        let k = Entry::seq_view(kids@).len() as int;
                                        &&& k == tes.len()
                                        &&& Entry::seq_view(kids@) == tes.take(k)
                                        &&& s@.skip(cur as int) == "],\"parent\":"@ + (jopt(
                                            t->Folder_parent,
                                        ) + (",\"id\":"@ + (spec_digits(t->Folder_id as nat) + (
                                        "}}"@ + rest))))
                                    } by {
                                        assert(hyp(t, rest));
                                        let tes = t->Folder_entries;
                                        let k0 = Entry::seq_view(pre_kids).len() as int;
                                        lemma_plain_trees_elem(tes, k0);
                                        assert(e@ == tes[k0]);
                                        assert(Entry::seq_view(kids@) =~= tes.take(k0 + 1));
                                        lemma_skip_concat(
                                            s@,
                                            pre_cur,
                                            enc_tree(tes[k0]),
                                            enc_list(tes.skip(k0 + 1)) + ("],\"parent\":"@ + (
                                            jopt(t->Folder_parent) + (",\"id\":"@ + (spec_digits(
                                                t->Folder_id as nat,
                                            ) + ("}}"@ + rest))))),
                                        );
                                        if k0 + 1 < tes.len() {
                                            assert(tes.skip(k0 + 1)[0] == tes[k0 + 1]);
                                            assert(enc_list(tes.skip(k0 + 1))[0] == ',');
                                            assert(s@.skip(cur as int)[0] == s@[cur as int]);
                                            assert(s@[cur as int] == ',');
                                            assert(cur < s@.len());
                                            assert(false);
                                        }
                                        assert(enc_list(tes.skip(k0 + 1)) =~= Seq::<char>::empty())
                                            by {
                                            assert(tes.skip(k0 + 1).len() == 0);
                                        }
                                        assert(tes.take(k0 + 1) =~= tes);
                                    }
                                }
                            }
                        },
                    }
                }
            } else {
                proof {
                    assert forall|t: TreeV, rest: Seq<char>| i <= s@.len() && plain_tree(t) && s@.skip(i as int) == enc_tree(t) + rest && t is Folder implies t->Folder_entries.len() == 0
                        && s@.skip(cur as int) == "],\"parent\":"@ + (jopt(t->Folder_parent) + (
                    ",\"id\":"@ + (spec_digits(t->Folder_id as nat) + ("}}"@ + rest)))) by {
                        let tes = t->Folder_entries;
                        if tes.len() > 0 {
                            lemma_enc_tree_first(tes[0]);
                            assert(enc_trees(tes)[0] == enc_tree(tes[0])[0]);
                            assert(s@.skip(cur as int)[0] == s@[cur as int]);
                            assert(s@[cur as int] == '{');
                            assert(cur < s@.len());
                            assert(('{') as nat == 123 && (']') as nat == 93);
                            assert(false);
                        }
                        assert(enc_trees(tes) + ("],\"parent\":"@ + (jopt(t->Folder_parent) + (
                        ",\"id\":"@ + (spec_digits(t->Folder_id as nat) + ("}}"@ + rest))))) =~=
                        "],\"parent\":"@ + (jopt(t->Folder_parent) + (",\"id\":"@ + (
                        spec_digits(t->Folder_id as nat) + ("}}"@ + rest)))));
                        assert(Entry::seq_view(kids@) =~= tes.take(0));
                    }
                }
            }
            let j4 = match p_lit(s, cur, "],\"parent\":") {
                Some(j) => j,
                None => {
                    proof {
                        assert forall|t: TreeV, rest: Seq<char>| i <= s@.len() && plain_tree(t) && s@.skip(i as int) == enc_tree(t) + rest && t is Folder implies false by {
                            assert(hyp(t, rest));
                            lemma_skip_concat(
                                s@,
                                cur as int,
                                "],\"parent\":"@,
                                jopt(t->Folder_parent) + (",\"id\":"@ + (spec_digits(
                                    t->Folder_id as nat,
                                ) + ("}}"@ + rest))),
                            );
                        }
                    }
                    return None;
                },
            };
            proof {
                assert forall|t: TreeV, rest: Seq<char>| i <= s@.len() && plain_tree(t) && s@.skip(i as int) == enc_tree(t) + rest && t is Folder implies s@.skip(j4 as int)
                    == jopt(t->Folder_parent) + (",\"id\":"@ + (spec_digits(t->Folder_id as nat)
                    + ("}}"@ + rest))) by {
                    assert(hyp(t, rest));
                    lemma_skip_concat(
                        s@,
                        cur as int,
                        "],\"parent\":"@,
                        jopt(t->Folder_parent) + (",\"id\":"@ + (spec_digits(t->Folder_id as nat)
                            + ("}}"@ + rest))),
                    );
                }
            }
            let (parent, j5) = match p_opt(s, j4) {
                Some(p) => p,
                None => {
                    proof {
                        assert forall|t: TreeV, rest: Seq<char>| i <= s@.len() && plain_tree(t) && s@.skip(i as int) == enc_tree(t) + rest && t is Folder implies false by {
                            assert((",\"id\":"@ + (spec_digits(t->Folder_id as nat) + ("}}"@
                                + rest)))[0] == ',');
                            assert((',') as nat == 44);
                        }
                    }
                    return None;
                },
            };
            proof {
                assert forall|t: TreeV, rest: Seq<char>| i <= s@.len() && plain_tree(t) && s@.skip(i as int) == enc_tree(t) + rest && t is Folder implies parent
                    == t->Folder_parent && s@.skip(j5 as int) == ",\"id\":"@ + (spec_digits(
                    t->Folder_id as nat,
                ) + ("}}"@ + rest)) by {
                    assert((",\"id\":"@ + (spec_digits(t->Folder_id as nat) + ("}}"@ + rest)))[0]
                        == ',');
                    assert((',') as nat == 44);
                    lemma_skip_concat(
                        s@,
                        j4 as int,
                        jopt(t->Folder_parent),
                        ",\"id\":"@ + (spec_digits(t->Folder_id as nat) + ("}}"@ + rest)),
                    );
                }
            }
            let j6 = match p_lit(s, j5, ",\"id\":") {
                Some(j) => j,
                None => {
                    proof {
                        assert forall|t: TreeV, rest: Seq<char>| i <= s@.len() && plain_tree(t) && s@.skip(i as int) == enc_tree(t) + rest && t is Folder implies false by {
                            lemma_skip_concat(
                                s@,
                                j5 as int,
                                ",\"id\":"@,
                                spec_digits(t->Folder_id as nat) + ("}}"@ + rest),
                            );
                        }
                    }
                    return None;
                },
            };
            proof {
                assert forall|t: TreeV, rest: Seq<char>| i <= s@.len() && plain_tree(t) && s@.skip(i as int) == enc_tree(t) + rest && t is Folder implies s@.skip(j6 as int)
                    == spec_digits(t->Folder_id as nat) + ("}}"@ + rest) by {
                    lemma_skip_concat(
                        s@,
                        j5 as int,
                        ",\"id\":"@,
                        spec_digits(t->Folder_id as nat) + ("}}"@ + rest),
                    );
                }
            }
            let (id, j7) = match p_digits(s, j6) {
                Some(p) => p,
                None => {
                    proof {
                        assert forall|t: TreeV, rest: Seq<char>| i <= s@.len() && plain_tree(t) && s@.skip(i as int) == enc_tree(t) + rest && t is Folder implies false by {
                            assert(("}}"@ + rest)[0] == '}');
                            assert(('}') as nat == 125);
                        }
                    }
                    return None;
                },
            };
            proof {
                assert forall|t: TreeV, rest: Seq<char>| i <= s@.len() && plain_tree(t) && s@.skip(i as int) == enc_tree(t) + rest && t is Folder implies id == t->Folder_id
                    && s@.skip(j7 as int) == "}}"@ + rest by {
                    assert(("}}"@ + rest)[0] == '}');
                    assert(('}') as nat == 125);
                    lemma_skip_concat(
                        s@,
                        j6 as int,
                        spec_digits(t->Folder_id as nat),
                        "}}"@ + rest,
                    );
                }
            }
            let j8 = match p_lit(s, j7, "}}") {
                Some(j) => j,
                None => {
                    proof {
                        assert forall|t: TreeV, rest: Seq<char>| i <= s@.len() && plain_tree(t) && s@.skip(i as int) == enc_tree(t) + rest && t is Folder implies false by {
                            lemma_skip_concat(s@, j7 as int, "}}"@, rest);
                        }
                    }
                    return None;
                },
            };
            let e = Entry::Folder(Folder { name, entries: kids, parent, id });
            proof {
                assert forall|t: TreeV, rest: Seq<char>| i <= s@.len() && plain_tree(t) && s@.skip(i as int) == enc_tree(t) + rest && t is Folder implies e@ == t && j8 == i
                    + enc_tree(t).len() by {
                    assert(hyp(t, rest));
                    assert(Entry::seq_view(kids@) == t->Folder_entries);
                    assert(e@ =~= t);
                }
            }
            Some((e, j8))
}

/// Consumes one encoded entry, or fails. Exactly the encoding of any
/// plain-text entry is accepted.
#[verifier::rlimit(100)]
fn p_tree(s: &Vec<char>, i: usize) -> (r: Option<(Entry, usize)>)
    ensures
        r matches Some(p) ==> i < p.1 <= s@.len(),
        forall|t: TreeV, rest: Seq<char>| #![trigger enc_tree(t) + rest]
            i <= s@.len() && plain_tree(t) && s@.skip(i as int) == enc_tree(t) + rest ==> match r {
                Some(p) => p.0@ == t && p.1 == i + enc_tree(t).len(),
                None => false,
            },
    decreases s@.len() - i, 1int,
{
    proof {
        reveal_strlit("{\"Task\":{\"name\":");
        reveal_strlit("{\"Folder\":{\"name\":");
        reveal_strlit(",\"done\":");
        reveal_strlit(",\"entries\":[");
        reveal_strlit("],\"parent\":");
        reveal_strlit(",\"id\":");
        reveal_strlit("}}");
    }
    match p_lit(s, i, "{\"Task\":{\"name\":") {
        Some(j1) => {
            let r = p_task_fields(s, i, j1);
            proof {
                assert forall|t: TreeV, rest: Seq<char>|
                    i <= s@.len() && plain_tree(t) && s@.skip(i as int) == enc_tree(t)
                        + rest implies match r {
                    Some(p) => p.0@ == t && p.1 == i + enc_tree(t).len(),
                    None => false,
                } by {
                    if t is Folder {
                        lemma_folder_layout(s@, i as int, t, rest);
                        assert(s@.subrange(i as int, i + 16)[2] == s@[i + 2]);
                        assert(s@.subrange(i as int, i + 18)[2] == s@[i + 2]);
                        assert("{\"Task\":{\"name\":"@[2] != "{\"Folder\":{\"name\":"@[2]);
                        assert(false);
                    }
                }
            }
            r
        },
        None => {
            let r = p_folder_fields(s, i);
            proof {
                assert forall|t: TreeV, rest: Seq<char>|
                    i <= s@.len() && plain_tree(t) && s@.skip(i as int) == enc_tree(t)
                        + rest implies match r {
                    Some(p) => p.0@ == t && p.1 == i + enc_tree(t).len(),
                    None => false,
                } by {
                    if t is Task {
                        lemma_task_layout(s@, i as int, t, rest);
                    }
                }
            }
            r
        },
    }
}

/// The suffixes of a snapshot's tail after the view number, one spec
/// function per component boundary, kept shallow on purpose.
pub open spec fn tl11(l: usize, inp: Seq<char>, at: usize, af: usize, ed: Option<usize>) -> Seq<char> {
    Seq::<char>::empty()
}

pub open spec fn tl10(l: usize, inp: Seq<char>, at: usize, af: usize, ed: Option<usize>) -> Seq<char> {
    "}"@ + tl11(l, inp, at, af, ed)
}

pub open spec fn tl9(l: usize, inp: Seq<char>, at: usize, af: usize, ed: Option<usize>) -> Seq<char> {
    jopt(ed) + tl10(l, inp, at, af, ed)
}

pub open spec fn tl8(l: usize, inp: Seq<char>, at: usize, af: usize, ed: Option<usize>) -> Seq<char> {
    ",\"editing\":"@ + tl9(l, inp, at, af, ed)
}

pub open spec fn tl7(l: usize, inp: Seq<char>, at: usize, af: usize, ed: Option<usize>) -> Seq<char> {
    spec_digits(af as nat) + tl8(l, inp, at, af, ed)
}

pub open spec fn tl6(l: usize, inp: Seq<char>, at: usize, af: usize, ed: Option<usize>) -> Seq<char> {
    ",\"add_folder\":"@ + tl7(l, inp, at, af, ed)
}

pub open spec fn tl5(l: usize, inp: Seq<char>, at: usize, af: usize, ed: Option<usize>) -> Seq<char> {
    spec_digits(at as nat) + tl6(l, inp, at, af, ed)
}

pub open spec fn tl4(l: usize, inp: Seq<char>, at: usize, af: usize, ed: Option<usize>) -> Seq<char> {
    ",\"add_task\":"@ + tl5(l, inp, at, af, ed)
}

pub open spec fn tl3(l: usize, inp: Seq<char>, at: usize, af: usize, ed: Option<usize>) -> Seq<char> {
    jstr(inp) + tl4(l, inp, at, af, ed)
}

pub open spec fn tl2(l: usize, inp: Seq<char>, at: usize, af: usize, ed: Option<usize>) -> Seq<char> {
    "},\"input\":"@ + tl3(l, inp, at, af, ed)
}

pub open spec fn tl1(l: usize, inp: Seq<char>, at: usize, af: usize, ed: Option<usize>) -> Seq<char> {
    spec_digits(l as nat) + tl2(l, inp, at, af, ed)
}

pub open spec fn tl0(l: usize, inp: Seq<char>, at: usize, af: usize, ed: Option<usize>) -> Seq<char> {
    ",\"id\":{\"latest_id\":"@ + tl1(l, inp, at, af, ed)
}

/// The boundary positions of the snapshot's tail, from the cursor on.
#[verifier::rlimit(100)]
proof fn p_tail_layout(s: Seq<char>, i: int, l: usize, inp: Seq<char>, at: usize, af: usize, ed: Option<usize>)
    requires
        0 <= i <= s.len(),
        s.skip(i) == tl0(l, inp, at, af, ed),
    ensures
        s.skip(i + ",\"id\":{\"latest_id\":"@.len()) == tl1(l, inp, at, af, ed),
        i + ",\"id\":{\"latest_id\":"@.len() <= s.len(),
        s.skip(i + ",\"id\":{\"latest_id\":"@.len() + spec_digits(l as nat).len()) == tl2(l, inp, at, af, ed),
        i + ",\"id\":{\"latest_id\":"@.len() + spec_digits(l as nat).len() <= s.len(),
        s.skip(i + ",\"id\":{\"latest_id\":"@.len() + spec_digits(l as nat).len() + "},\"input\":"@.len()) == tl3(l, inp, at, af, ed),
        i + ",\"id\":{\"latest_id\":"@.len() + spec_digits(l as nat).len() + "},\"input\":"@.len() <= s.len(),
        s.skip(i + ",\"id\":{\"latest_id\":"@.len() + spec_digits(l as nat).len() + "},\"input\":"@.len() + jstr(inp).len()) == tl4(l, inp, at, af, ed),
        i + ",\"id\":{\"latest_id\":"@.len() + spec_digits(l as nat).len() + "},\"input\":"@.len() + jstr(inp).len() <= s.len(),
        s.skip(i + ",\"id\":{\"latest_id\":"@.len() + spec_digits(l as nat).len() + "},\"input\":"@.len() + jstr(inp).len() + ",\"add_task\":"@.len()) == tl5(l, inp, at, af, ed),
        i + ",\"id\":{\"latest_id\":"@.len() + spec_digits(l as nat).len() + "},\"input\":"@.len() + jstr(inp).len() + ",\"add_task\":"@.len() <= s.len(),
        s.skip(i + ",\"id\":{\"latest_id\":"@.len() + spec_digits(l as nat).len() + "},\"input\":"@.len() + jstr(inp).len() + ",\"add_task\":"@.len() + spec_digits(at as nat).len()) == tl6(l, inp, at, af, ed),
        i + ",\"id\":{\"latest_id\":"@.len() + spec_digits(l as nat).len() + "},\"input\":"@.len() + jstr(inp).len() + ",\"add_task\":"@.len() + spec_digits(at as nat).len() <= s.len(),
        s.skip(i + ",\"id\":{\"latest_id\":"@.len() + spec_digits(l as nat).len() + "},\"input\":"@.len() + jstr(inp).len() + ",\"add_task\":"@.len() + spec_digits(at as nat).len() + ",\"add_folder\":"@.len()) == tl7(l, inp, at, af, ed),
        i + ",\"id\":{\"latest_id\":"@.len() + spec_digits(l as nat).len() + "},\"input\":"@.len() + jstr(inp).len() + ",\"add_task\":"@.len() + spec_digits(at as nat).len() + ",\"add_folder\":"@.len() <= s.len(),
        s.skip(i + ",\"id\":{\"latest_id\":"@.len() + spec_digits(l as nat).len() + "},\"input\":"@.len() + jstr(inp).len() + ",\"add_task\":"@.len() + spec_digits(at as nat).len() + ",\"add_folder\":"@.len() + spec_digits(af as nat).len()) == tl8(l, inp, at, af, ed),
        i + ",\"id\":{\"latest_id\":"@.len() + spec_digits(l as nat).len() + "},\"input\":"@.len() + jstr(inp).len() + ",\"add_task\":"@.len() + spec_digits(at as nat).len() + ",\"add_folder\":"@.len() + spec_digits(af as nat).len() <= s.len(),
        s.skip(i + ",\"id\":{\"latest_id\":"@.len() + spec_digits(l as nat).len() + "},\"input\":"@.len() + jstr(inp).len() + ",\"add_task\":"@.len() + spec_digits(at as nat).len() + ",\"add_folder\":"@.len() + spec_digits(af as nat).len() + ",\"editing\":"@.len()) == tl9(l, inp, at, af, ed),
        i + ",\"id\":{\"latest_id\":"@.len() + spec_digits(l as nat).len() + "},\"input\":"@.len() + jstr(inp).len() + ",\"add_task\":"@.len() + spec_digits(at as nat).len() + ",\"add_folder\":"@.len() + spec_digits(af as nat).len() + ",\"editing\":"@.len() <= s.len(),
        s.skip(i + ",\"id\":{\"latest_id\":"@.len() + spec_digits(l as nat).len() + "},\"input\":"@.len() + jstr(inp).len() + ",\"add_task\":"@.len() + spec_digits(at as nat).len() + ",\"add_folder\":"@.len() + spec_digits(af as nat).len() + ",\"editing\":"@.len() + jopt(ed).len()) == tl10(l, inp, at, af, ed),
        i + ",\"id\":{\"latest_id\":"@.len() + spec_digits(l as nat).len() + "},\"input\":"@.len() + jstr(inp).len() + ",\"add_task\":"@.len() + spec_digits(at as nat).len() + ",\"add_folder\":"@.len() + spec_digits(af as nat).len() + ",\"editing\":"@.len() + jopt(ed).len() <= s.len(),
        s.skip(i + ",\"id\":{\"latest_id\":"@.len() + spec_digits(l as nat).len() + "},\"input\":"@.len() + jstr(inp).len() + ",\"add_task\":"@.len() + spec_digits(at as nat).len() + ",\"add_folder\":"@.len() + spec_digits(af as nat).len() + ",\"editing\":"@.len() + jopt(ed).len() + "}"@.len()) == tl11(l, inp, at, af, ed),
        i + ",\"id\":{\"latest_id\":"@.len() + spec_digits(l as nat).len() + "},\"input\":"@.len() + jstr(inp).len() + ",\"add_task\":"@.len() + spec_digits(at as nat).len() + ",\"add_folder\":"@.len() + spec_digits(af as nat).len() + ",\"editing\":"@.len() + jopt(ed).len() + "}"@.len() <= s.len(),
{
    lemma_skip_concat(s, i, ",\"id\":{\"latest_id\":"@, tl1(l, inp, at, af, ed));
    lemma_skip_concat(s, i + ",\"id\":{\"latest_id\":"@.len(), spec_digits(l as nat), tl2(l, inp, at, af, ed));
    lemma_skip_concat(s, i + ",\"id\":{\"latest_id\":"@.len() + spec_digits(l as nat).len(), "},\"input\":"@, tl3(l, inp, at, af, ed));
    lemma_skip_concat(s, i + ",\"id\":{\"latest_id\":"@.len() + spec_digits(l as nat).len() + "},\"input\":"@.len(), jstr(inp), tl4(l, inp, at, af, ed));
    lemma_skip_concat(s, i + ",\"id\":{\"latest_id\":"@.len() + spec_digits(l as nat).len() + "},\"input\":"@.len() + jstr(inp).len(), ",\"add_task\":"@, tl5(l, inp, at, af, ed));
    lemma_skip_concat(s, i + ",\"id\":{\"latest_id\":"@.len() + spec_digits(l as nat).len() + "},\"input\":"@.len() + jstr(inp).len() + ",\"add_task\":"@.len(), spec_digits(at as nat), tl6(l, inp, at, af, ed));
    lemma_skip_concat(s, i + ",\"id\":{\"latest_id\":"@.len() + spec_digits(l as nat).len() + "},\"input\":"@.len() + jstr(inp).len() + ",\"add_task\":"@.len() + spec_digits(at as nat).len(), ",\"add_folder\":"@, tl7(l, inp, at, af, ed));
    lemma_skip_concat(s, i + ",\"id\":{\"latest_id\":"@.len() + spec_digits(l as nat).len() + "},\"input\":"@.len() + jstr(inp).len() + ",\"add_task\":"@.len() + spec_digits(at as nat).len() + ",\"add_folder\":"@.len(), spec_digits(af as nat), tl8(l, inp, at, af, ed));
    lemma_skip_concat(s, i + ",\"id\":{\"latest_id\":"@.len() + spec_digits(l as nat).len() + "},\"input\":"@.len() + jstr(inp).len() + ",\"add_task\":"@.len() + spec_digits(at as nat).len() + ",\"add_folder\":"@.len() + spec_digits(af as nat).len(), ",\"editing\":"@, tl9(l, inp, at, af, ed));
    lemma_skip_concat(s, i + ",\"id\":{\"latest_id\":"@.len() + spec_digits(l as nat).len() + "},\"input\":"@.len() + jstr(inp).len() + ",\"add_task\":"@.len() + spec_digits(at as nat).len() + ",\"add_folder\":"@.len() + spec_digits(af as nat).len() + ",\"editing\":"@.len(), jopt(ed), tl10(l, inp, at, af, ed));
    lemma_skip_concat(s, i + ",\"id\":{\"latest_id\":"@.len() + spec_digits(l as nat).len() + "},\"input\":"@.len() + jstr(inp).len() + ",\"add_task\":"@.len() + spec_digits(at as nat).len() + ",\"add_folder\":"@.len() + spec_digits(af as nat).len() + ",\"editing\":"@.len() + jopt(ed).len(), "}"@, tl11(l, inp, at, af, ed));
}

/// Consumes the snapshot fields after the view number. Exactly the
/// rendering of any values with a plain-text input is accepted.
#[verifier::loop_isolation(false)]
#[verifier::rlimit(100)]
fn p_state_tail(s: &Vec<char>, i: usize) -> (r: Option<(usize, String, usize, usize, Option<usize>, usize)>)
    ensures
        forall|l: usize, inp: Seq<char>, at: usize, af: usize, ed: Option<usize>|
            #[trigger] tl0(l, inp, at, af, ed) == s@.skip(i as int) && i <= s@.len()
                && plain_name(inp) ==> match r {
                Some(p) => p.0 == l && p.1@ == inp && p.2 == at && p.3 == af && p.4 == ed && p.5
                    == i + tl0(l, inp, at, af, ed).len(),
                None => false,
            },
{
    let slen = s.len();
    proof {
        assert(s@.len() <= usize::MAX);
        reveal_strlit(",\"id\":{\"latest_id\":");
        reveal_strlit("},\"input\":");
        reveal_strlit(",\"add_task\":");
        reveal_strlit(",\"add_folder\":");
        reveal_strlit(",\"editing\":");
        reveal_strlit("}");
    }
    let c1 = match p_lit(s, i, ",\"id\":{\"latest_id\":") {
        Some(j) => j,
        None => {
            proof {
                assert forall|l: usize, inp: Seq<char>, at: usize, af: usize, ed: Option<usize>|
                    #[trigger] tl0(l, inp, at, af, ed) == s@.skip(i as int) && i <= s@.len()
                    && plain_name(inp) implies false by {
                    p_tail_layout(s@, i as int, l, inp, at, af, ed);
                    assert(tl1(l, inp, at, af, ed) == spec_digits(l as nat) + tl2(l, inp, at, af, ed));
                    assert(tl3(l, inp, at, af, ed) == jstr(inp) + tl4(l, inp, at, af, ed));
                    assert(tl5(l, inp, at, af, ed) == spec_digits(at as nat) + tl6(l, inp, at, af, ed));
                    assert(tl7(l, inp, at, af, ed) == spec_digits(af as nat) + tl8(l, inp, at, af, ed));
                    assert(tl9(l, inp, at, af, ed) == jopt(ed) + tl10(l, inp, at, af, ed));
                    assert(tl2(l, inp, at, af, ed)[0] == '}');
                    assert(('}') as nat == 125);
                    assert(tl6(l, inp, at, af, ed)[0] == ',');
                    assert(tl8(l, inp, at, af, ed)[0] == ',');
                    assert((',') as nat == 44);
                    assert(tl10(l, inp, at, af, ed)[0] == '}');
                    lemma_skip_concat(s@, i as int, ",\"id\":{\"latest_id\":"@, tl1(l, inp, at, af, ed));
                    lemma_skip_concat(s@, i as int + ",\"id\":{\"latest_id\":"@.len() + spec_digits(l as nat).len(), "},\"input\":"@, tl3(l, inp, at, af, ed));
                    lemma_skip_concat(s@, i as int + ",\"id\":{\"latest_id\":"@.len() + spec_digits(l as nat).len() + "},\"input\":"@.len() + jstr(inp).len(), ",\"add_task\":"@, tl5(l, inp, at, af, ed));
                    lemma_skip_concat(s@, i as int + ",\"id\":{\"latest_id\":"@.len() + spec_digits(l as nat).len() + "},\"input\":"@.len() + jstr(inp).len() + ",\"add_task\":"@.len() + spec_digits(at as nat).len(), ",\"add_folder\":"@, tl7(l, inp, at, af, ed));
                    lemma_skip_concat(s@, i as int + ",\"id\":{\"latest_id\":"@.len() + spec_digits(l as nat).len() + "},\"input\":"@.len() + jstr(inp).len() + ",\"add_task\":"@.len() + spec_digits(at as nat).len() + ",\"add_folder\":"@.len() + spec_digits(af as nat).len(), ",\"editing\":"@, tl9(l, inp, at, af, ed));
                    lemma_skip_concat(s@, i as int + ",\"id\":{\"latest_id\":"@.len() + spec_digits(l as nat).len() + "},\"input\":"@.len() + jstr(inp).len() + ",\"add_task\":"@.len() + spec_digits(at as nat).len() + ",\"add_folder\":"@.len() + spec_digits(af as nat).len() + ",\"editing\":"@.len() + jopt(ed).len(), "}"@, tl11(l, inp, at, af, ed));
                }
            }
            return None;
        },
    };
    let (latest, c2) = match p_digits(s, c1) {
        Some(p) => p,
        None => {
            proof {
                assert forall|l: usize, inp: Seq<char>, at: usize, af: usize, ed: Option<usize>|
                    #[trigger] tl0(l, inp, at, af, ed) == s@.skip(i as int) && i <= s@.len()
                    && plain_name(inp) implies false by {
                    p_tail_layout(s@, i as int, l, inp, at, af, ed);
                    assert(tl1(l, inp, at, af, ed) == spec_digits(l as nat) + tl2(l, inp, at, af, ed));
                    assert(tl3(l, inp, at, af, ed) == jstr(inp) + tl4(l, inp, at, af, ed));
                    assert(tl5(l, inp, at, af, ed) == spec_digits(at as nat) + tl6(l, inp, at, af, ed));
                    assert(tl7(l, inp, at, af, ed) == spec_digits(af as nat) + tl8(l, inp, at, af, ed));
                    assert(tl9(l, inp, at, af, ed) == jopt(ed) + tl10(l, inp, at, af, ed));
                    assert(tl2(l, inp, at, af, ed)[0] == '}');
                    assert(('}') as nat == 125);
                    assert(tl6(l, inp, at, af, ed)[0] == ',');
                    assert(tl8(l, inp, at, af, ed)[0] == ',');
                    assert((',') as nat == 44);
                    assert(tl10(l, inp, at, af, ed)[0] == '}');
                    lemma_skip_concat(s@, i as int, ",\"id\":{\"latest_id\":"@, tl1(l, inp, at, af, ed));
                    lemma_skip_concat(s@, i as int + ",\"id\":{\"latest_id\":"@.len() + spec_digits(l as nat).len(), "},\"input\":"@, tl3(l, inp, at, af, ed));
                    lemma_skip_concat(s@, i as int + ",\"id\":{\"latest_id\":"@.len() + spec_digits(l as nat).len() + "},\"input\":"@.len() + jstr(inp).len(), ",\"add_task\":"@, tl5(l, inp, at, af, ed));
                    lemma_skip_concat(s@, i as int + ",\"id\":{\"latest_id\":"@.len() + spec_digits(l as nat).len() + "},\"input\":"@.len() + jstr(inp).len() + ",\"add_task\":"@.len() + spec_digits(at as nat).len(), ",\"add_folder\":"@, tl7(l, inp, at, af, ed));
                    lemma_skip_concat(s@, i as int + ",\"id\":{\"latest_id\":"@.len() + spec_digits(l as nat).len() + "},\"input\":"@.len() + jstr(inp).len() + ",\"add_task\":"@.len() + spec_digits(at as nat).len() + ",\"add_folder\":"@.len() + spec_digits(af as nat).len(), ",\"editing\":"@, tl9(l, inp, at, af, ed));
                    lemma_skip_concat(s@, i as int + ",\"id\":{\"latest_id\":"@.len() + spec_digits(l as nat).len() + "},\"input\":"@.len() + jstr(inp).len() + ",\"add_task\":"@.len() + spec_digits(at as nat).len() + ",\"add_folder\":"@.len() + spec_digits(af as nat).len() + ",\"editing\":"@.len() + jopt(ed).len(), "}"@, tl11(l, inp, at, af, ed));
                }
            }
            return None;
        },
    };
    let c3 = match p_lit(s, c2, "},\"input\":") {
        Some(j) => j,
        None => {
            proof {
                assert forall|l: usize, inp: Seq<char>, at: usize, af: usize, ed: Option<usize>|
                    #[trigger] tl0(l, inp, at, af, ed) == s@.skip(i as int) && i <= s@.len()
                    && plain_name(inp) implies false by {
                    p_tail_layout(s@, i as int, l, inp, at, af, ed);
                    assert(tl1(l, inp, at, af, ed) == spec_digits(l as nat) + tl2(l, inp, at, af, ed));
                    assert(tl3(l, inp, at, af, ed) == jstr(inp) + tl4(l, inp, at, af, ed));
                    assert(tl5(l, inp, at, af, ed) == spec_digits(at as nat) + tl6(l, inp, at, af, ed));
                    assert(tl7(l, inp, at, af, ed) == spec_digits(af as nat) + tl8(l, inp, at, af, ed));
                    assert(tl9(l, inp, at, af, ed) == jopt(ed) + tl10(l, inp, at, af, ed));
                    assert(tl2(l, inp, at, af, ed)[0] == '}');
                    assert(('}') as nat == 125);
                    assert(tl6(l, inp, at, af, ed)[0] == ',');
                    assert(tl8(l, inp, at, af, ed)[0] == ',');
                    assert((',') as nat == 44);
                    assert(tl10(l, inp, at, af, ed)[0] == '}');
                    lemma_skip_concat(s@, i as int, ",\"id\":{\"latest_id\":"@, tl1(l, inp, at, af, ed));
                    lemma_skip_concat(s@, i as int + ",\"id\":{\"latest_id\":"@.len() + spec_digits(l as nat).len(), "},\"input\":"@, tl3(l, inp, at, af, ed));
                    lemma_skip_concat(s@, i as int + ",\"id\":{\"latest_id\":"@.len() + spec_digits(l as nat).len() + "},\"input\":"@.len() + jstr(inp).len(), ",\"add_task\":"@, tl5(l, inp, at, af, ed));
                    lemma_skip_concat(s@, i as int + ",\"id\":{\"latest_id\":"@.len() + spec_digits(l as nat).len() + "},\"input\":"@.len() + jstr(inp).len() + ",\"add_task\":"@.len() + spec_digits(at as nat).len(), ",\"add_folder\":"@, tl7(l, inp, at, af, ed));
                    lemma_skip_concat(s@, i as int + ",\"id\":{\"latest_id\":"@.len() + spec_digits(l as nat).len() + "},\"input\":"@.len() + jstr(inp).len() + ",\"add_task\":"@.len() + spec_digits(at as nat).len() + ",\"add_folder\":"@.len() + spec_digits(af as nat).len(), ",\"editing\":"@, tl9(l, inp, at, af, ed));
                    lemma_skip_concat(s@, i as int + ",\"id\":{\"latest_id\":"@.len() + spec_digits(l as nat).len() + "},\"input\":"@.len() + jstr(inp).len() + ",\"add_task\":"@.len() + spec_digits(at as nat).len() + ",\"add_folder\":"@.len() + spec_digits(af as nat).len() + ",\"editing\":"@.len() + jopt(ed).len(), "}"@, tl11(l, inp, at, af, ed));
                }
            }
            return None;
        },
    };
    let (input, c4) = match p_string(s, c3) {
        Some(p) => p,
        None => {
            proof {
                assert forall|l: usize, inp: Seq<char>, at: usize, af: usize, ed: Option<usize>|
                    #[trigger] tl0(l, inp, at, af, ed) == s@.skip(i as int) && i <= s@.len()
                    && plain_name(inp) implies false by {
                    p_tail_layout(s@, i as int, l, inp, at, af, ed);
                    assert(tl1(l, inp, at, af, ed) == spec_digits(l as nat) + tl2(l, inp, at, af, ed));
                    assert(tl3(l, inp, at, af, ed) == jstr(inp) + tl4(l, inp, at, af, ed));
                    assert(tl5(l, inp, at, af, ed) == spec_digits(at as nat) + tl6(l, inp, at, af, ed));
                    assert(tl7(l, inp, at, af, ed) == spec_digits(af as nat) + tl8(l, inp, at, af, ed));
                    assert(tl9(l, inp, at, af, ed) == jopt(ed) + tl10(l, inp, at, af, ed));
                    assert(tl2(l, inp, at, af, ed)[0] == '}');
                    assert(('}') as nat == 125);
                    assert(tl6(l, inp, at, af, ed)[0] == ',');
                    assert(tl8(l, inp, at, af, ed)[0] == ',');
                    assert((',') as nat == 44);
                    assert(tl10(l, inp, at, af, ed)[0] == '}');
                    lemma_skip_concat(s@, i as int, ",\"id\":{\"latest_id\":"@, tl1(l, inp, at, af, ed));
                    lemma_skip_concat(s@, i as int + ",\"id\":{\"latest_id\":"@.len() + spec_digits(l as nat).len(), "},\"input\":"@, tl3(l, inp, at, af, ed));
                    lemma_skip_concat(s@, i as int + ",\"id\":{\"latest_id\":"@.len() + spec_digits(l as nat).len() + "},\"input\":"@.len() + jstr(inp).len(), ",\"add_task\":"@, tl5(l, inp, at, af, ed));
                    lemma_skip_concat(s@, i as int + ",\"id\":{\"latest_id\":"@.len() + spec_digits(l as nat).len() + "},\"input\":"@.len() + jstr(inp).len() + ",\"add_task\":"@.len() + spec_digits(at as nat).len(), ",\"add_folder\":"@, tl7(l, inp, at, af, ed));
                    lemma_skip_concat(s@, i as int + ",\"id\":{\"latest_id\":"@.len() + spec_digits(l as nat).len() + "},\"input\":"@.len() + jstr(inp).len() + ",\"add_task\":"@.len() + spec_digits(at as nat).len() + ",\"add_folder\":"@.len() + spec_digits(af as nat).len(), ",\"editing\":"@, tl9(l, inp, at, af, ed));
                    lemma_skip_concat(s@, i as int + ",\"id\":{\"latest_id\":"@.len() + spec_digits(l as nat).len() + "},\"input\":"@.len() + jstr(inp).len() + ",\"add_task\":"@.len() + spec_digits(at as nat).len() + ",\"add_folder\":"@.len() + spec_digits(af as nat).len() + ",\"editing\":"@.len() + jopt(ed).len(), "}"@, tl11(l, inp, at, af, ed));
                }
            }
            return None;
        },
    };
    let c5 = match p_lit(s, c4, ",\"add_task\":") {
        Some(j) => j,
        None => {
            proof {
                assert forall|l: usize, inp: Seq<char>, at: usize, af: usize, ed: Option<usize>|
                    #[trigger] tl0(l, inp, at, af, ed) == s@.skip(i as int) && i <= s@.len()
                    && plain_name(inp) implies false by {
                    p_tail_layout(s@, i as int, l, inp, at, af, ed);
                    assert(tl1(l, inp, at, af, ed) == spec_digits(l as nat) + tl2(l, inp, at, af, ed));
                    assert(tl3(l, inp, at, af, ed) == jstr(inp) + tl4(l, inp, at, af, ed));
                    assert(tl5(l, inp, at, af, ed) == spec_digits(at as nat) + tl6(l, inp, at, af, ed));
                    assert(tl7(l, inp, at, af, ed) == spec_digits(af as nat) + tl8(l, inp, at, af, ed));
                    assert(tl9(l, inp, at, af, ed) == jopt(ed) + tl10(l, inp, at, af, ed));
                    assert(tl2(l, inp, at, af, ed)[0] == '}');
                    assert(('}') as nat == 125);
                    assert(tl6(l, inp, at, af, ed)[0] == ',');
                    assert(tl8(l, inp, at, af, ed)[0] == ',');
                    assert((',') as nat == 44);
                    assert(tl10(l, inp, at, af, ed)[0] == '}');
                    lemma_skip_concat(s@, i as int, ",\"id\":{\"latest_id\":"@, tl1(l, inp, at, af, ed));
                    lemma_skip_concat(s@, i as int + ",\"id\":{\"latest_id\":"@.len() + spec_digits(l as nat).len(), "},\"input\":"@, tl3(l, inp, at, af, ed));
                    lemma_skip_concat(s@, i as int + ",\"id\":{\"latest_id\":"@.len() + spec_digits(l as nat).len() + "},\"input\":"@.len() + jstr(inp).len(), ",\"add_task\":"@, tl5(l, inp, at, af, ed));
                    lemma_skip_concat(s@, i as int + ",\"id\":{\"latest_id\":"@.len() + spec_digits(l as nat).len() + "},\"input\":"@.len() + jstr(inp).len() + ",\"add_task\":"@.len() + spec_digits(at as nat).len(), ",\"add_folder\":"@, tl7(l, inp, at, af, ed));
                    lemma_skip_concat(s@, i as int + ",\"id\":{\"latest_id\":"@.len() + spec_digits(l as nat).len() + "},\"input\":"@.len() + jstr(inp).len() + ",\"add_task\":"@.len() + spec_digits(at as nat).len() + ",\"add_folder\":"@.len() + spec_digits(af as nat).len(), ",\"editing\":"@, tl9(l, inp, at, af, ed));
                    lemma_skip_concat(s@, i as int + ",\"id\":{\"latest_id\":"@.len() + spec_digits(l as nat).len() + "},\"input\":"@.len() + jstr(inp).len() + ",\"add_task\":"@.len() + spec_digits(at as nat).len() + ",\"add_folder\":"@.len() + spec_digits(af as nat).len() + ",\"editing\":"@.len() + jopt(ed).len(), "}"@, tl11(l, inp, at, af, ed));
                }
            }
            return None;
        },
    };
    let (add_task, c6) = match p_digits(s, c5) {
        Some(p) => p,
        None => {
            proof {
                assert forall|l: usize, inp: Seq<char>, at: usize, af: usize, ed: Option<usize>|
                    #[trigger] tl0(l, inp, at, af, ed) == s@.skip(i as int) && i <= s@.len()
                    && plain_name(inp) implies false by {
                    p_tail_layout(s@, i as int, l, inp, at, af, ed);
                    assert(tl1(l, inp, at, af, ed) == spec_digits(l as nat) + tl2(l, inp, at, af, ed));
                    assert(tl3(l, inp, at, af, ed) == jstr(inp) + tl4(l, inp, at, af, ed));
                    assert(tl5(l, inp, at, af, ed) == spec_digits(at as nat) + tl6(l, inp, at, af, ed));
                    assert(tl7(l, inp, at, af, ed) == spec_digits(af as nat) + tl8(l, inp, at, af, ed));
                    assert(tl9(l, inp, at, af, ed) == jopt(ed) + tl10(l, inp, at, af, ed));
                    assert(tl2(l, inp, at, af, ed)[0] == '}');
                    assert(('}') as nat == 125);
                    assert(tl6(l, inp, at, af, ed)[0] == ',');
                    assert(tl8(l, inp, at, af, ed)[0] == ',');
                    assert((',') as nat == 44);
                    assert(tl10(l, inp, at, af, ed)[0] == '}');
                    lemma_skip_concat(s@, i as int, ",\"id\":{\"latest_id\":"@, tl1(l, inp, at, af, ed));
                    lemma_skip_concat(s@, i as int + ",\"id\":{\"latest_id\":"@.len() + spec_digits(l as nat).len(), "},\"input\":"@, tl3(l, inp, at, af, ed));
                    lemma_skip_concat(s@, i as int + ",\"id\":{\"latest_id\":"@.len() + spec_digits(l as nat).len() + "},\"input\":"@.len() + jstr(inp).len(), ",\"add_task\":"@, tl5(l, inp, at, af, ed));
                    lemma_skip_concat(s@, i as int + ",\"id\":{\"latest_id\":"@.len() + spec_digits(l as nat).len() + "},\"input\":"@.len() + jstr(inp).len() + ",\"add_task\":"@.len() + spec_digits(at as nat).len(), ",\"add_folder\":"@, tl7(l, inp, at, af, ed));
                    lemma_skip_concat(s@, i as int + ",\"id\":{\"latest_id\":"@.len() + spec_digits(l as nat).len() + "},\"input\":"@.len() + jstr(inp).len() + ",\"add_task\":"@.len() + spec_digits(at as nat).len() + ",\"add_folder\":"@.len() + spec_digits(af as nat).len(), ",\"editing\":"@, tl9(l, inp, at, af, ed));
                    lemma_skip_concat(s@, i as int + ",\"id\":{\"latest_id\":"@.len() + spec_digits(l as nat).len() + "},\"input\":"@.len() + jstr(inp).len() + ",\"add_task\":"@.len() + spec_digits(at as nat).len() + ",\"add_folder\":"@.len() + spec_digits(af as nat).len() + ",\"editing\":"@.len() + jopt(ed).len(), "}"@, tl11(l, inp, at, af, ed));
                }
            }
            return None;
        },
    };
    let c7 = match p_lit(s, c6, ",\"add_folder\":") {
        Some(j) => j,
        None => {
            proof {
                assert forall|l: usize, inp: Seq<char>, at: usize, af: usize, ed: Option<usize>|
                    #[trigger] tl0(l, inp, at, af, ed) == s@.skip(i as int) && i <= s@.len()
                    && plain_name(inp) implies false by {
                    p_tail_layout(s@, i as int, l, inp, at, af, ed);
                    assert(tl1(l, inp, at, af, ed) == spec_digits(l as nat) + tl2(l, inp, at, af, ed));
                    assert(tl3(l, inp, at, af, ed) == jstr(inp) + tl4(l, inp, at, af, ed));
                    assert(tl5(l, inp, at, af, ed) == spec_digits(at as nat) + tl6(l, inp, at, af, ed));
                    assert(tl7(l, inp, at, af, ed) == spec_digits(af as nat) + tl8(l, inp, at, af, ed));
                    assert(tl9(l, inp, at, af, ed) == jopt(ed) + tl10(l, inp, at, af, ed));
                    assert(tl2(l, inp, at, af, ed)[0] == '}');
                    assert(('}') as nat == 125);
                    assert(tl6(l, inp, at, af, ed)[0] == ',');
                    assert(tl8(l, inp, at, af, ed)[0] == ',');
                    assert((',') as nat == 44);
                    assert(tl10(l, inp, at, af, ed)[0] == '}');
                    lemma_skip_concat(s@, i as int, ",\"id\":{\"latest_id\":"@, tl1(l, inp, at, af, ed));
                    lemma_skip_concat(s@, i as int + ",\"id\":{\"latest_id\":"@.len() + spec_digits(l as nat).len(), "},\"input\":"@, tl3(l, inp, at, af, ed));
                    lemma_skip_concat(s@, i as int + ",\"id\":{\"latest_id\":"@.len() + spec_digits(l as nat).len() + "},\"input\":"@.len() + jstr(inp).len(), ",\"add_task\":"@, tl5(l, inp, at, af, ed));
                    lemma_skip_concat(s@, i as int + ",\"id\":{\"latest_id\":"@.len() + spec_digits(l as nat).len() + "},\"input\":"@.len() + jstr(inp).len() + ",\"add_task\":"@.len() + spec_digits(at as nat).len(), ",\"add_folder\":"@, tl7(l, inp, at, af, ed));
                    lemma_skip_concat(s@, i as int + ",\"id\":{\"latest_id\":"@.len() + spec_digits(l as nat).len() + "},\"input\":"@.len() + jstr(inp).len() + ",\"add_task\":"@.len() + spec_digits(at as nat).len() + ",\"add_folder\":"@.len() + spec_digits(af as nat).len(), ",\"editing\":"@, tl9(l, inp, at, af, ed));
                    lemma_skip_concat(s@, i as int + ",\"id\":{\"latest_id\":"@.len() + spec_digits(l as nat).len() + "},\"input\":"@.len() + jstr(inp).len() + ",\"add_task\":"@.len() + spec_digits(at as nat).len() + ",\"add_folder\":"@.len() + spec_digits(af as nat).len() + ",\"editing\":"@.len() + jopt(ed).len(), "}"@, tl11(l, inp, at, af, ed));
                }
            }
            return None;
        },
    };
    let (add_folder, c8) = match p_digits(s, c7) {
        Some(p) => p,
        None => {
            proof {
                assert forall|l: usize, inp: Seq<char>, at: usize, af: usize, ed: Option<usize>|
                    #[trigger] tl0(l, inp, at, af, ed) == s@.skip(i as int) && i <= s@.len()
                    && plain_name(inp) implies false by {
                    p_tail_layout(s@, i as int, l, inp, at, af, ed);
                    assert(tl1(l, inp, at, af, ed) == spec_digits(l as nat) + tl2(l, inp, at, af, ed));
                    assert(tl3(l, inp, at, af, ed) == jstr(inp) + tl4(l, inp, at, af, ed));
                    assert(tl5(l, inp, at, af, ed) == spec_digits(at as nat) + tl6(l, inp, at, af, ed));
                    assert(tl7(l, inp, at, af, ed) == spec_digits(af as nat) + tl8(l, inp, at, af, ed));
                    assert(tl9(l, inp, at, af, ed) == jopt(ed) + tl10(l, inp, at, af, ed));
                    assert(tl2(l, inp, at, af, ed)[0] == '}');
                    assert(('}') as nat == 125);
                    assert(tl6(l, inp, at, af, ed)[0] == ',');
                    assert(tl8(l, inp, at, af, ed)[0] == ',');
                    assert((',') as nat == 44);
                    assert(tl10(l, inp, at, af, ed)[0] == '}');
                    lemma_skip_concat(s@, i as int, ",\"id\":{\"latest_id\":"@, tl1(l, inp, at, af, ed));
                    lemma_skip_concat(s@, i as int + ",\"id\":{\"latest_id\":"@.len() + spec_digits(l as nat).len(), "},\"input\":"@, tl3(l, inp, at, af, ed));
                    lemma_skip_concat(s@, i as int + ",\"id\":{\"latest_id\":"@.len() + spec_digits(l as nat).len() + "},\"input\":"@.len() + jstr(inp).len(), ",\"add_task\":"@, tl5(l, inp, at, af, ed));
                    lemma_skip_concat(s@, i as int + ",\"id\":{\"latest_id\":"@.len() + spec_digits(l as nat).len() + "},\"input\":"@.len() + jstr(inp).len() + ",\"add_task\":"@.len() + spec_digits(at as nat).len(), ",\"add_folder\":"@, tl7(l, inp, at, af, ed));
                    lemma_skip_concat(s@, i as int + ",\"id\":{\"latest_id\":"@.len() + spec_digits(l as nat).len() + "},\"input\":"@.len() + jstr(inp).len() + ",\"add_task\":"@.len() + spec_digits(at as nat).len() + ",\"add_folder\":"@.len() + spec_digits(af as nat).len(), ",\"editing\":"@, tl9(l, inp, at, af, ed));
                    lemma_skip_concat(s@, i as int + ",\"id\":{\"latest_id\":"@.len() + spec_digits(l as nat).len() + "},\"input\":"@.len() + jstr(inp).len() + ",\"add_task\":"@.len() + spec_digits(at as nat).len() + ",\"add_folder\":"@.len() + spec_digits(af as nat).len() + ",\"editing\":"@.len() + jopt(ed).len(), "}"@, tl11(l, inp, at, af, ed));
                }
            }
            return None;
        },
    };
    let c9 = match p_lit(s, c8, ",\"editing\":") {
        Some(j) => j,
        None => {
            proof {
                assert forall|l: usize, inp: Seq<char>, at: usize, af: usize, ed: Option<usize>|
                    #[trigger] tl0(l, inp, at, af, ed) == s@.skip(i as int) && i <= s@.len()
                    && plain_name(inp) implies false by {
                    p_tail_layout(s@, i as int, l, inp, at, af, ed);
                    assert(tl1(l, inp, at, af, ed) == spec_digits(l as nat) + tl2(l, inp, at, af, ed));
                    assert(tl3(l, inp, at, af, ed) == jstr(inp) + tl4(l, inp, at, af, ed));
                    assert(tl5(l, inp, at, af, ed) == spec_digits(at as nat) + tl6(l, inp, at, af, ed));
                    assert(tl7(l, inp, at, af, ed) == spec_digits(af as nat) + tl8(l, inp, at, af, ed));
                    assert(tl9(l, inp, at, af, ed) == jopt(ed) + tl10(l, inp, at, af, ed));
                    assert(tl2(l, inp, at, af, ed)[0] == '}');
                    assert(('}') as nat == 125);
                    assert(tl6(l, inp, at, af, ed)[0] == ',');
                    assert(tl8(l, inp, at, af, ed)[0] == ',');
                    assert((',') as nat == 44);
                    assert(tl10(l, inp, at, af, ed)[0] == '}');
                    lemma_skip_concat(s@, i as int, ",\"id\":{\"latest_id\":"@, tl1(l, inp, at, af, ed));
                    lemma_skip_concat(s@, i as int + ",\"id\":{\"latest_id\":"@.len() + spec_digits(l as nat).len(), "},\"input\":"@, tl3(l, inp, at, af, ed));
                    lemma_skip_concat(s@, i as int + ",\"id\":{\"latest_id\":"@.len() + spec_digits(l as nat).len() + "},\"input\":"@.len() + jstr(inp).len(), ",\"add_task\":"@, tl5(l, inp, at, af, ed));
                    lemma_skip_concat(s@, i as int + ",\"id\":{\"latest_id\":"@.len() + spec_digits(l as nat).len() + "},\"input\":"@.len() + jstr(inp).len() + ",\"add_task\":"@.len() + spec_digits(at as nat).len(), ",\"add_folder\":"@, tl7(l, inp, at, af, ed));
                    lemma_skip_concat(s@, i as int + ",\"id\":{\"latest_id\":"@.len() + spec_digits(l as nat).len() + "},\"input\":"@.len() + jstr(inp).len() + ",\"add_task\":"@.len() + spec_digits(at as nat).len() + ",\"add_folder\":"@.len() + spec_digits(af as nat).len(), ",\"editing\":"@, tl9(l, inp, at, af, ed));
                    lemma_skip_concat(s@, i as int + ",\"id\":{\"latest_id\":"@.len() + spec_digits(l as nat).len() + "},\"input\":"@.len() + jstr(inp).len() + ",\"add_task\":"@.len() + spec_digits(at as nat).len() + ",\"add_folder\":"@.len() + spec_digits(af as nat).len() + ",\"editing\":"@.len() + jopt(ed).len(), "}"@, tl11(l, inp, at, af, ed));
                }
            }
            return None;
        },
    };
    let (editing, c10) = match p_opt(s, c9) {
        Some(p) => p,
        None => {
            proof {
                assert forall|l: usize, inp: Seq<char>, at: usize, af: usize, ed: Option<usize>|
                    #[trigger] tl0(l, inp, at, af, ed) == s@.skip(i as int) && i <= s@.len()
                    && plain_name(inp) implies false by {
                    p_tail_layout(s@, i as int, l, inp, at, af, ed);
                    assert(tl1(l, inp, at, af, ed) == spec_digits(l as nat) + tl2(l, inp, at, af, ed));
                    assert(tl3(l, inp, at, af, ed) == jstr(inp) + tl4(l, inp, at, af, ed));
                    assert(tl5(l, inp, at, af, ed) == spec_digits(at as nat) + tl6(l, inp, at, af, ed));
                    assert(tl7(l, inp, at, af, ed) == spec_digits(af as nat) + tl8(l, inp, at, af, ed));
                    assert(tl9(l, inp, at, af, ed) == jopt(ed) + tl10(l, inp, at, af, ed));
                    assert(tl2(l, inp, at, af, ed)[0] == '}');
                    assert(('}') as nat == 125);
                    assert(tl6(l, inp, at, af, ed)[0] == ',');
                    assert(tl8(l, inp, at, af, ed)[0] == ',');
                    assert((',') as nat == 44);
                    assert(tl10(l, inp, at, af, ed)[0] == '}');
                    lemma_skip_concat(s@, i as int, ",\"id\":{\"latest_id\":"@, tl1(l, inp, at, af, ed));
                    lemma_skip_concat(s@, i as int + ",\"id\":{\"latest_id\":"@.len() + spec_digits(l as nat).len(), "},\"input\":"@, tl3(l, inp, at, af, ed));
                    lemma_skip_concat(s@, i as int + ",\"id\":{\"latest_id\":"@.len() + spec_digits(l as nat).len() + "},\"input\":"@.len() + jstr(inp).len(), ",\"add_task\":"@, tl5(l, inp, at, af, ed));
                    lemma_skip_concat(s@, i as int + ",\"id\":{\"latest_id\":"@.len() + spec_digits(l as nat).len() + "},\"input\":"@.len() + jstr(inp).len() + ",\"add_task\":"@.len() + spec_digits(at as nat).len(), ",\"add_folder\":"@, tl7(l, inp, at, af, ed));
                    lemma_skip_concat(s@, i as int + ",\"id\":{\"latest_id\":"@.len() + spec_digits(l as nat).len() + "},\"input\":"@.len() + jstr(inp).len() + ",\"add_task\":"@.len() + spec_digits(at as nat).len() + ",\"add_folder\":"@.len() + spec_digits(af as nat).len(), ",\"editing\":"@, tl9(l, inp, at, af, ed));
                    lemma_skip_concat(s@, i as int + ",\"id\":{\"latest_id\":"@.len() + spec_digits(l as nat).len() + "},\"input\":"@.len() + jstr(inp).len() + ",\"add_task\":"@.len() + spec_digits(at as nat).len() + ",\"add_folder\":"@.len() + spec_digits(af as nat).len() + ",\"editing\":"@.len() + jopt(ed).len(), "}"@, tl11(l, inp, at, af, ed));
                }
            }
            return None;
        },
    };
    let c11 = match p_lit(s, c10, "}") {
        Some(j) => j,
        None => {
            proof {
                assert forall|l: usize, inp: Seq<char>, at: usize, af: usize, ed: Option<usize>|
                    #[trigger] tl0(l, inp, at, af, ed) == s@.skip(i as int) && i <= s@.len()
                    && plain_name(inp) implies false by {
                    p_tail_layout(s@, i as int, l, inp, at, af, ed);
                    assert(tl1(l, inp, at, af, ed) == spec_digits(l as nat) + tl2(l, inp, at, af, ed));
                    assert(tl3(l, inp, at, af, ed) == jstr(inp) + tl4(l, inp, at, af, ed));
                    assert(tl5(l, inp, at, af, ed) == spec_digits(at as nat) + tl6(l, inp, at, af, ed));
                    assert(tl7(l, inp, at, af, ed) == spec_digits(af as nat) + tl8(l, inp, at, af, ed));
                    assert(tl9(l, inp, at, af, ed) == jopt(ed) + tl10(l, inp, at, af, ed));
                    assert(tl2(l, inp, at, af, ed)[0] == '}');
                    assert(('}') as nat == 125);
                    assert(tl6(l, inp, at, af, ed)[0] == ',');
                    assert(tl8(l, inp, at, af, ed)[0] == ',');
                    assert((',') as nat == 44);
                    assert(tl10(l, inp, at, af, ed)[0] == '}');
                    lemma_skip_concat(s@, i as int, ",\"id\":{\"latest_id\":"@, tl1(l, inp, at, af, ed));
                    lemma_skip_concat(s@, i as int + ",\"id\":{\"latest_id\":"@.len() + spec_digits(l as nat).len(), "},\"input\":"@, tl3(l, inp, at, af, ed));
                    lemma_skip_concat(s@, i as int + ",\"id\":{\"latest_id\":"@.len() + spec_digits(l as nat).len() + "},\"input\":"@.len() + jstr(inp).len(), ",\"add_task\":"@, tl5(l, inp, at, af, ed));
                    lemma_skip_concat(s@, i as int + ",\"id\":{\"latest_id\":"@.len() + spec_digits(l as nat).len() + "},\"input\":"@.len() + jstr(inp).len() + ",\"add_task\":"@.len() + spec_digits(at as nat).len(), ",\"add_folder\":"@, tl7(l, inp, at, af, ed));
                    lemma_skip_concat(s@, i as int + ",\"id\":{\"latest_id\":"@.len() + spec_digits(l as nat).len() + "},\"input\":"@.len() + jstr(inp).len() + ",\"add_task\":"@.len() + spec_digits(at as nat).len() + ",\"add_folder\":"@.len() + spec_digits(af as nat).len(), ",\"editing\":"@, tl9(l, inp, at, af, ed));
                    lemma_skip_concat(s@, i as int + ",\"id\":{\"latest_id\":"@.len() + spec_digits(l as nat).len() + "},\"input\":"@.len() + jstr(inp).len() + ",\"add_task\":"@.len() + spec_digits(at as nat).len() + ",\"add_folder\":"@.len() + spec_digits(af as nat).len() + ",\"editing\":"@.len() + jopt(ed).len(), "}"@, tl11(l, inp, at, af, ed));
                }
            }
            return None;
        },
    };
    let res = (latest, input, add_task, add_folder, editing, c11);
    proof {
        assert forall|l: usize, inp: Seq<char>, at: usize, af: usize, ed: Option<usize>|
                    #[trigger] tl0(l, inp, at, af, ed) == s@.skip(i as int) && i <= s@.len()
                    && plain_name(inp) implies res.0 == l && res.1@ == inp && res.2 == at && res.3 == af
            && res.4 == ed && res.5 == i + tl0(l, inp, at, af, ed).len() by {
                    p_tail_layout(s@, i as int, l, inp, at, af, ed);
                    assert(tl1(l, inp, at, af, ed) == spec_digits(l as nat) + tl2(l, inp, at, af, ed));
                    assert(tl3(l, inp, at, af, ed) == jstr(inp) + tl4(l, inp, at, af, ed));
                    assert(tl5(l, inp, at, af, ed) == spec_digits(at as nat) + tl6(l, inp, at, af, ed));
                    assert(tl7(l, inp, at, af, ed) == spec_digits(af as nat) + tl8(l, inp, at, af, ed));
                    assert(tl9(l, inp, at, af, ed) == jopt(ed) + tl10(l, inp, at, af, ed));
                    assert(tl2(l, inp, at, af, ed)[0] == '}');
                    assert(('}') as nat == 125);
                    assert(tl6(l, inp, at, af, ed)[0] == ',');
                    assert(tl8(l, inp, at, af, ed)[0] == ',');
                    assert((',') as nat == 44);
                    assert(tl10(l, inp, at, af, ed)[0] == '}');
                    lemma_skip_concat(s@, i as int, ",\"id\":{\"latest_id\":"@, tl1(l, inp, at, af, ed));
                    lemma_skip_concat(s@, i as int + ",\"id\":{\"latest_id\":"@.len() + spec_digits(l as nat).len(), "},\"input\":"@, tl3(l, inp, at, af, ed));
                    lemma_skip_concat(s@, i as int + ",\"id\":{\"latest_id\":"@.len() + spec_digits(l as nat).len() + "},\"input\":"@.len() + jstr(inp).len(), ",\"add_task\":"@, tl5(l, inp, at, af, ed));
                    lemma_skip_concat(s@, i as int + ",\"id\":{\"latest_id\":"@.len() + spec_digits(l as nat).len() + "},\"input\":"@.len() + jstr(inp).len() + ",\"add_task\":"@.len() + spec_digits(at as nat).len(), ",\"add_folder\":"@, tl7(l, inp, at, af, ed));
                    lemma_skip_concat(s@, i as int + ",\"id\":{\"latest_id\":"@.len() + spec_digits(l as nat).len() + "},\"input\":"@.len() + jstr(inp).len() + ",\"add_task\":"@.len() + spec_digits(at as nat).len() + ",\"add_folder\":"@.len() + spec_digits(af as nat).len(), ",\"editing\":"@, tl9(l, inp, at, af, ed));
                    lemma_skip_concat(s@, i as int + ",\"id\":{\"latest_id\":"@.len() + spec_digits(l as nat).len() + "},\"input\":"@.len() + jstr(inp).len() + ",\"add_task\":"@.len() + spec_digits(at as nat).len() + ",\"add_folder\":"@.len() + spec_digits(af as nat).len() + ",\"editing\":"@.len() + jopt(ed).len(), "}"@, tl11(l, inp, at, af, ed));
        }
    }
    Some(res)
}

/// The snapshot's head, one shallow spec function per component boundary.
pub open spec fn st3(sv: StateV) -> Seq<char> {
    spec_digits(sv.view as nat) + tl0(sv.latest_id, sv.input, sv.add_task, sv.add_folder, sv.editing)
}

pub open spec fn st2(sv: StateV) -> Seq<char> {
    ",\"view\":"@ + st3(sv)
}

pub open spec fn st1(sv: StateV) -> Seq<char> {
    enc_tree(sv.root) + st2(sv)
}

pub open spec fn st0(sv: StateV) -> Seq<char> {
    "{\"root\":"@ + st1(sv)
}

/// The whole snapshot is its head followed by its tail.
#[verifier::rlimit(100)]
#[verifier::spinoff_prover]
proof fn lemma_enc_state_layout(sv: StateV)
    ensures
        enc_state(sv) == st0(sv),
{
    let l = sv.latest_id;
    let inp = sv.input;
    let at = sv.add_task;
    let af = sv.add_folder;
    let ed = sv.editing;
    assert(tl5(l, inp, at, af, ed) =~= spec_digits(at as nat) + ",\"add_folder\":"@
        + spec_digits(af as nat) + ",\"editing\":"@ + jopt(ed) + "}"@);
    assert(tl0(l, inp, at, af, ed) =~= ",\"id\":{\"latest_id\":"@ + spec_digits(l as nat)
        + "},\"input\":"@ + jstr(inp) + ",\"add_task\":"@ + tl5(l, inp, at, af, ed));
    assert(st0(sv) =~= "{\"root\":"@ + enc_tree(sv.root) + ",\"view\":"@ + spec_digits(
        sv.view as nat,
    ) + tl0(l, inp, at, af, ed));
    assert(enc_state(sv) =~= st0(sv));
}

/// Consumes a whole snapshot, or fails. Exactly the encoding of any
/// plain-text state is accepted, and gives that state back.
#[verifier::loop_isolation(false)]
#[verifier::rlimit(100)]
fn p_state(s: &Vec<char>) -> (r: Option<State>)
    ensures
        forall|sv: StateV| #[trigger]
            enc_state(sv) == s@ && plain_state(sv) ==> match r {
                Some(st) => st@ == sv,
                None => false,
            },
{
    let slen = s.len();
    proof {
        assert(s@.len() <= usize::MAX);
        reveal_strlit("{\"root\":");
        reveal_strlit(",\"view\":");
        reveal_strlit(",\"id\":{\"latest_id\":");
    }
    let j1 = match p_lit(s, 0, "{\"root\":") {
        Some(j) => j,
        None => {
            proof {
                assert forall|sv: StateV| #[trigger] enc_state(sv) == s@ && plain_state(sv) implies false by {
                lemma_enc_state_layout(sv);
                assert(s@.skip(0) =~= s@);
                assert(st0(sv) == "{\"root\":"@ + st1(sv));
                lemma_skip_concat(s@, 0, "{\"root\":"@, st1(sv));
                assert(st1(sv) == enc_tree(sv.root) + st2(sv));
                lemma_skip_concat(s@, "{\"root\":"@.len() as int, enc_tree(sv.root), st2(sv));
                assert(st2(sv) == ",\"view\":"@ + st3(sv));
                lemma_skip_concat(
                    s@,
                    "{\"root\":"@.len() + enc_tree(sv.root).len() as int,
                    ",\"view\":"@,
                    st3(sv),
                );
                assert(st3(sv) == spec_digits(sv.view as nat) + tl0(
                    sv.latest_id,
                    sv.input,
                    sv.add_task,
                    sv.add_folder,
                    sv.editing,
                ));
                lemma_skip_concat(
                    s@,
                    "{\"root\":"@.len() + enc_tree(sv.root).len() as int + ",\"view\":"@.len(),
                    spec_digits(sv.view as nat),
                    tl0(sv.latest_id, sv.input, sv.add_task, sv.add_folder, sv.editing),
                );
                assert(tl0(sv.latest_id, sv.input, sv.add_task, sv.add_folder, sv.editing)
                    == ",\"id\":{\"latest_id\":"@ + tl1(
                    sv.latest_id,
                    sv.input,
                    sv.add_task,
                    sv.add_folder,
                    sv.editing,
                ));
                assert(tl0(sv.latest_id, sv.input, sv.add_task, sv.add_folder, sv.editing)[0]
                    == ',');
                assert((',') as nat == 44);
                }
            }
            return None;
        },
    };
    let (root, j2) = match p_tree(s, j1) {
        Some(p) => p,
        None => {
            proof {
                assert forall|sv: StateV| #[trigger] enc_state(sv) == s@ && plain_state(sv) implies false by {
                lemma_enc_state_layout(sv);
                assert(s@.skip(0) =~= s@);
                assert(st0(sv) == "{\"root\":"@ + st1(sv));
                lemma_skip_concat(s@, 0, "{\"root\":"@, st1(sv));
                assert(st1(sv) == enc_tree(sv.root) + st2(sv));
                lemma_skip_concat(s@, "{\"root\":"@.len() as int, enc_tree(sv.root), st2(sv));
                assert(st2(sv) == ",\"view\":"@ + st3(sv));
                lemma_skip_concat(
                    s@,
                    "{\"root\":"@.len() + enc_tree(sv.root).len() as int,
                    ",\"view\":"@,
                    st3(sv),
                );
                assert(st3(sv) == spec_digits(sv.view as nat) + tl0(
                    sv.latest_id,
                    sv.input,
                    sv.add_task,
                    sv.add_folder,
                    sv.editing,
                ));
                lemma_skip_concat(
                    s@,
                    "{\"root\":"@.len() + enc_tree(sv.root).len() as int + ",\"view\":"@.len(),
                    spec_digits(sv.view as nat),
                    tl0(sv.latest_id, sv.input, sv.add_task, sv.add_folder, sv.editing),
                );
                assert(tl0(sv.latest_id, sv.input, sv.add_task, sv.add_folder, sv.editing)
                    == ",\"id\":{\"latest_id\":"@ + tl1(
                    sv.latest_id,
                    sv.input,
                    sv.add_task,
                    sv.add_folder,
                    sv.editing,
                ));
                assert(tl0(sv.latest_id, sv.input, sv.add_task, sv.add_folder, sv.editing)[0]
                    == ',');
                assert((',') as nat == 44);
                }
            }
            return None;
        },
    };
    let j3 = match p_lit(s, j2, ",\"view\":") {
        Some(j) => j,
        None => {
            proof {
                assert forall|sv: StateV| #[trigger] enc_state(sv) == s@ && plain_state(sv) implies false by {
                lemma_enc_state_layout(sv);
                assert(s@.skip(0) =~= s@);
                assert(st0(sv) == "{\"root\":"@ + st1(sv));
                lemma_skip_concat(s@, 0, "{\"root\":"@, st1(sv));
                assert(st1(sv) == enc_tree(sv.root) + st2(sv));
                lemma_skip_concat(s@, "{\"root\":"@.len() as int, enc_tree(sv.root), st2(sv));
                assert(st2(sv) == ",\"view\":"@ + st3(sv));
                lemma_skip_concat(
                    s@,
                    "{\"root\":"@.len() + enc_tree(sv.root).len() as int,
                    ",\"view\":"@,
                    st3(sv),
                );
                assert(st3(sv) == spec_digits(sv.view as nat) + tl0(
                    sv.latest_id,
                    sv.input,
                    sv.add_task,
                    sv.add_folder,
                    sv.editing,
                ));
                lemma_skip_concat(
                    s@,
                    "{\"root\":"@.len() + enc_tree(sv.root).len() as int + ",\"view\":"@.len(),
                    spec_digits(sv.view as nat),
                    tl0(sv.latest_id, sv.input, sv.add_task, sv.add_folder, sv.editing),
                );
                assert(tl0(sv.latest_id, sv.input, sv.add_task, sv.add_folder, sv.editing)
                    == ",\"id\":{\"latest_id\":"@ + tl1(
                    sv.latest_id,
                    sv.input,
                    sv.add_task,
                    sv.add_folder,
                    sv.editing,
                ));
                assert(tl0(sv.latest_id, sv.input, sv.add_task, sv.add_folder, sv.editing)[0]
                    == ',');
                assert((',') as nat == 44);
                }
            }
            return None;
        },
    };
    let (view, j4) = match p_digits(s, j3) {
        Some(p) => p,
        None => {
            proof {
                assert forall|sv: StateV| #[trigger] enc_state(sv) == s@ && plain_state(sv) implies false by {
                lemma_enc_state_layout(sv);
                assert(s@.skip(0) =~= s@);
                assert(st0(sv) == "{\"root\":"@ + st1(sv));
                lemma_skip_concat(s@, 0, "{\"root\":"@, st1(sv));
                assert(st1(sv) == enc_tree(sv.root) + st2(sv));
                lemma_skip_concat(s@, "{\"root\":"@.len() as int, enc_tree(sv.root), st2(sv));
                assert(st2(sv) == ",\"view\":"@ + st3(sv));
                lemma_skip_concat(
                    s@,
                    "{\"root\":"@.len() + enc_tree(sv.root).len() as int,
                    ",\"view\":"@,
                    st3(sv),
                );
                assert(st3(sv) == spec_digits(sv.view as nat) + tl0(
                    sv.latest_id,
                    sv.input,
                    sv.add_task,
                    sv.add_folder,
                    sv.editing,
                ));
                lemma_skip_concat(
                    s@,
                    "{\"root\":"@.len() + enc_tree(sv.root).len() as int + ",\"view\":"@.len(),
                    spec_digits(sv.view as nat),
                    tl0(sv.latest_id, sv.input, sv.add_task, sv.add_folder, sv.editing),
                );
                assert(tl0(sv.latest_id, sv.input, sv.add_task, sv.add_folder, sv.editing)
                    == ",\"id\":{\"latest_id\":"@ + tl1(
                    sv.latest_id,
                    sv.input,
                    sv.add_task,
                    sv.add_folder,
                    sv.editing,
                ));
                assert(tl0(sv.latest_id, sv.input, sv.add_task, sv.add_folder, sv.editing)[0]
                    == ',');
                assert((',') as nat == 44);
                }
            }
            return None;
        },
    };
    let tail = match p_state_tail(s, j4) {
        Some(p) => p,
        None => {
            proof {
                assert forall|sv: StateV| #[trigger] enc_state(sv) == s@ && plain_state(sv) implies false by {
                lemma_enc_state_layout(sv);
                assert(s@.skip(0) =~= s@);
                assert(st0(sv) == "{\"root\":"@ + st1(sv));
                lemma_skip_concat(s@, 0, "{\"root\":"@, st1(sv));
                assert(st1(sv) == enc_tree(sv.root) + st2(sv));
                lemma_skip_concat(s@, "{\"root\":"@.len() as int, enc_tree(sv.root), st2(sv));
                assert(st2(sv) == ",\"view\":"@ + st3(sv));
                lemma_skip_concat(
                    s@,
                    "{\"root\":"@.len() + enc_tree(sv.root).len() as int,
                    ",\"view\":"@,
                    st3(sv),
                );
                assert(st3(sv) == spec_digits(sv.view as nat) + tl0(
                    sv.latest_id,
                    sv.input,
                    sv.add_task,
                    sv.add_folder,
                    sv.editing,
                ));
                lemma_skip_concat(
                    s@,
                    "{\"root\":"@.len() + enc_tree(sv.root).len() as int + ",\"view\":"@.len(),
                    spec_digits(sv.view as nat),
                    tl0(sv.latest_id, sv.input, sv.add_task, sv.add_folder, sv.editing),
                );
                assert(tl0(sv.latest_id, sv.input, sv.add_task, sv.add_folder, sv.editing)
                    == ",\"id\":{\"latest_id\":"@ + tl1(
                    sv.latest_id,
                    sv.input,
                    sv.add_task,
                    sv.add_folder,
                    sv.editing,
                ));
                assert(tl0(sv.latest_id, sv.input, sv.add_task, sv.add_folder, sv.editing)[0]
                    == ',');
                assert((',') as nat == 44);
                }
            }
            return None;
        },
    };
    let (latest, input, add_task, add_folder, editing, jend) = tail;
    if jend != s.len() {
        proof {
            assert forall|sv: StateV| #[trigger] enc_state(sv) == s@ && plain_state(sv) implies false by {
                lemma_enc_state_layout(sv);
                assert(s@.skip(0) =~= s@);
                assert(st0(sv) == "{\"root\":"@ + st1(sv));
                lemma_skip_concat(s@, 0, "{\"root\":"@, st1(sv));
                assert(st1(sv) == enc_tree(sv.root) + st2(sv));
                lemma_skip_concat(s@, "{\"root\":"@.len() as int, enc_tree(sv.root), st2(sv));
                assert(st2(sv) == ",\"view\":"@ + st3(sv));
                lemma_skip_concat(
                    s@,
                    "{\"root\":"@.len() + enc_tree(sv.root).len() as int,
                    ",\"view\":"@,
                    st3(sv),
                );
                assert(st3(sv) == spec_digits(sv.view as nat) + tl0(
                    sv.latest_id,
                    sv.input,
                    sv.add_task,
                    sv.add_folder,
                    sv.editing,
                ));
                lemma_skip_concat(
                    s@,
                    "{\"root\":"@.len() + enc_tree(sv.root).len() as int + ",\"view\":"@.len(),
                    spec_digits(sv.view as nat),
                    tl0(sv.latest_id, sv.input, sv.add_task, sv.add_folder, sv.editing),
                );
                assert(tl0(sv.latest_id, sv.input, sv.add_task, sv.add_folder, sv.editing)
                    == ",\"id\":{\"latest_id\":"@ + tl1(
                    sv.latest_id,
                    sv.input,
                    sv.add_task,
                    sv.add_folder,
                    sv.editing,
                ));
                assert(tl0(sv.latest_id, sv.input, sv.add_task, sv.add_folder, sv.editing)[0]
                    == ',');
                assert((',') as nat == 44);
            }
        }
        return None;
    }
    let st = State {
        root,
        view,
        id: EntryId { latest_id: latest },
        input,
        add_task,
        add_folder,
        editing,
    };
    proof {
        assert forall|sv: StateV| #[trigger] enc_state(sv) == s@ && plain_state(sv) implies st@ == sv by {
                lemma_enc_state_layout(sv);
                assert(s@.skip(0) =~= s@);
                assert(st0(sv) == "{\"root\":"@ + st1(sv));
                lemma_skip_concat(s@, 0, "{\"root\":"@, st1(sv));
                assert(st1(sv) == enc_tree(sv.root) + st2(sv));
                lemma_skip_concat(s@, "{\"root\":"@.len() as int, enc_tree(sv.root), st2(sv));
                assert(st2(sv) == ",\"view\":"@ + st3(sv));
                lemma_skip_concat(
                    s@,
                    "{\"root\":"@.len() + enc_tree(sv.root).len() as int,
                    ",\"view\":"@,
                    st3(sv),
                );
                assert(st3(sv) == spec_digits(sv.view as nat) + tl0(
                    sv.latest_id,
                    sv.input,
                    sv.add_task,
                    sv.add_folder,
                    sv.editing,
                ));
                lemma_skip_concat(
                    s@,
                    "{\"root\":"@.len() + enc_tree(sv.root).len() as int + ",\"view\":"@.len(),
                    spec_digits(sv.view as nat),
                    tl0(sv.latest_id, sv.input, sv.add_task, sv.add_folder, sv.editing),
                );
                assert(tl0(sv.latest_id, sv.input, sv.add_task, sv.add_folder, sv.editing)
                    == ",\"id\":{\"latest_id\":"@ + tl1(
                    sv.latest_id,
                    sv.input,
                    sv.add_task,
                    sv.add_folder,
                    sv.editing,
                ));
                assert(tl0(sv.latest_id, sv.input, sv.add_task, sv.add_folder, sv.editing)[0]
                    == ',');
                assert((',') as nat == 44);
            assert(st@ =~= sv);
        }
    }
    Some(st)
}

/// Whether two character sequences are the same text.
fn chars_eq(a: &Vec<char>, b: &Vec<char>) -> (r: bool)
    ensures
        r == (a@ == b@),
{
    if a.len() != b.len() {
        proof {
            assert(a@.len() != b@.len());
        }
        return false;
    }
    let n = a.len();
    let mut i: usize = 0;
    while i < n
        invariant
            0 <= i <= n,
            n == a@.len() == b@.len(),
            forall|k: int| 0 <= k < i ==> a@[k] == b@[k],
        decreases n - i,
    {
        if a[i] != b[i] {
            return false;
        }
        i = i + 1;
    }
    proof {
        assert(a@ =~= b@);
    }
    true
}

/// Decodes a snapshot. A state is returned only when it is well formed and
/// encodes back to exactly the given text; anything else, a corrupt cache
/// or a foreign payload included, is rejected. Conversely, the encoding of
/// any well-formed state whose names are plain text is accepted and gives
/// back exactly that state: decoding inverts encoding.
pub fn decode_state(s: &Vec<char>) -> (r: Option<State>)
    ensures
        match r {
            Some(st) => st@.wf() && enc_state(st@) == s@,
            None => true,
        },
        forall|sv: StateV| #[trigger]
            enc_state(sv) == s@ && sv.wf() && plain_state(sv) ==> match r {
                Some(st) => st@ == sv,
                None => false,
            },
{
    match p_state(s) {
        None => None,
        Some(st) => {
            if !st.check_wf() {
                proof {
                    assert forall|sv: StateV| #[trigger]
                        enc_state(sv) == s@ && sv.wf() && plain_state(sv) implies false by {
                        assert(st@ == sv);
                    }
                }
                return None;
            }
            let back = encode_state(&st);
            if chars_eq(&back, s) {
                Some(st)
            } else {
                proof {
                    assert forall|sv: StateV| #[trigger]
                        enc_state(sv) == s@ && sv.wf() && plain_state(sv) implies false by {
                        assert(st@ == sv);
                    }
                }
                None
            }
        },
    }
}

} // verus!
