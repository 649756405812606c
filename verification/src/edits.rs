//! Parsing of textual edit directives and their application to in-memory
//! source buffers.
//!
//! A directive has the fixed shape `<row>,<col> <delete_count> <insert_text>`:
//! zero-based row and column, a count of deleted bytes, and the rest of the
//! directive taken verbatim, embedded whitespace included. Edits apply to a
//! byte buffer strictly in the order supplied; no reordering and no overlap
//! analysis happens here, so the caller must supply coordinates consistent
//! with the buffer state after prior edits.

use vstd::prelude::*;

verus! {

pub const SPACE: u8 = 32;

pub const COMMA: u8 = 44;

pub const NEWLINE: u8 = 10;

/// One structured edit: delete `delete_count` bytes at the position named by
/// `start_row` and `start_col`, then insert `inserted_text` there.
#[derive(Debug)]
pub struct EditOperation {
    pub start_row: usize,
    pub start_col: usize,
    pub delete_count: usize,
    pub inserted_text: Vec<u8>,
}

/// A directive without the fixed shape, carried verbatim so the error can
/// name the offending text.
#[derive(Debug)]
pub struct MalformedEdit {
    pub directive: Vec<u8>,
}

pub open spec fn is_digit(b: u8) -> bool {
    48 <= b <= 57
}

/// A non-empty, all-decimal-digit field.
pub open spec fn all_digits(s: Seq<u8>) -> bool {
    s.len() > 0 && forall|i: int| 0 <= i < s.len() ==> is_digit(#[trigger] s[i])
}

/// The decimal value of a digit field.
pub open spec fn digits_value(s: Seq<u8>) -> nat
    decreases s.len(),
{
    if s.len() == 0 {
        0
    } else {
        (digits_value(s.drop_last()) * 10 + (s.last() - 48)) as nat
    }
}

/// The text before the first occurrence of `sep`, and the text after it.
pub open spec fn split_once(s: Seq<u8>, sep: u8) -> Option<(Seq<u8>, Seq<u8>)> {
    match s.index_of_first(sep) {
        Some(i) => Some((s.take(i), s.skip(i + 1))),
        None => None,
    }
}

/// The four fields of a directive: row, column, delete count, inserted text.
/// The first space ends the position field, which a comma splits into row and
/// column; the second space ends the delete count, and everything after it is
/// the inserted text, verbatim. With no second space the text is empty.
pub open spec fn directive_parts(d: Seq<u8>) -> Option<(Seq<u8>, Seq<u8>, Seq<u8>, Seq<u8>)> {
    match split_once(d, SPACE) {
        None => None,
        Some(position_rest) => match split_once(position_rest.0, COMMA) {
            None => None,
            Some(row_col) => match split_once(position_rest.1, SPACE) {
                Some(del_text) => Some((row_col.0, row_col.1, del_text.0, del_text.1)),
                None => Some((row_col.0, row_col.1, position_rest.1, Seq::empty())),
            },
        },
    }
}

/// A well-formed directive: all three numeric fields are non-empty digit
/// runs whose values fit the machine.
pub open spec fn edit_directive_wf(d: Seq<u8>) -> bool {
    match directive_parts(d) {
        None => false,
        Some(parts) => {
            &&& all_digits(parts.0)
            &&& all_digits(parts.1)
            &&& all_digits(parts.2)
            &&& digits_value(parts.0) <= usize::MAX
            &&& digits_value(parts.1) <= usize::MAX
            &&& digits_value(parts.2) <= usize::MAX
        },
    }
}

pub open spec fn edit_row(d: Seq<u8>) -> nat {
    match directive_parts(d) {
        Some(parts) => digits_value(parts.0),
        None => 0,
    }
}

pub open spec fn edit_col(d: Seq<u8>) -> nat {
    match directive_parts(d) {
        Some(parts) => digits_value(parts.1),
        None => 0,
    }
}

pub open spec fn edit_del(d: Seq<u8>) -> nat {
    match directive_parts(d) {
        Some(parts) => digits_value(parts.2),
        None => 0,
    }
}

pub open spec fn edit_text(d: Seq<u8>) -> Seq<u8> {
    match directive_parts(d) {
        Some(parts) => parts.3,
        None => Seq::empty(),
    }
}

proof fn lemma_first_in_subrange(s: Seq<u8>, from: int, to: int, sep: u8, i: int)
    requires
        0 <= from <= to <= s.len(),
        from <= i < to,
        s[i] == sep,
        forall|j: int| from <= j < i ==> s[j] != sep,
    ensures
        s.subrange(from, to).index_of_first(sep) == Some(i - from),
{
    let sub = s.subrange(from, to);
    sub.index_of_first_ensures(sep);
    assert(sub[i - from] == sep);
    let k = sub.index_of_first(sep).unwrap();
    assert(s[k + from] == sep);
}

proof fn lemma_none_in_subrange(s: Seq<u8>, from: int, to: int, sep: u8)
    requires
        0 <= from <= to <= s.len(),
        forall|j: int| from <= j < to ==> s[j] != sep,
    ensures
        s.subrange(from, to).index_of_first(sep) is None,
{
    let sub = s.subrange(from, to);
    sub.index_of_first_ensures(sep);
    if sub.contains(sep) {
        let k = choose|k: int| 0 <= k < sub.len() && sub[k] == sep;
        assert(s[k + from] == sep);
    }
}

/// The first occurrence of `sep` in `d` between `from` and `to`, if any.
fn find_byte(d: &Vec<u8>, from: usize, to: usize, sep: u8) -> (r: Option<usize>)
    requires
        from <= to <= d@.len(),
    ensures
        match r {
            Some(i) => {
                &&& from <= i < to
                &&& d@[i as int] == sep
                &&& forall|j: int| from <= j < i ==> d@[j] != sep
            },
            None => forall|j: int| from <= j < to ==> d@[j] != sep,
        },
{
    let mut i = from;
    while i < to
        invariant
            from <= i <= to <= d@.len(),
            forall|j: int| from <= j < i ==> d@[j] != sep,
        decreases to - i,
    {
        if d[i] == sep {
            return Some(i);
        }
        i = i + 1;
    }
    None
}

proof fn lemma_digits_value_step(s: Seq<u8>, l: int)
    requires
        0 <= l < s.len(),
        is_digit(s[l]),
    ensures
        digits_value(s.take(l + 1)) == digits_value(s.take(l)) * 10 + (s[l] - 48),
{
    assert(s.take(l + 1).drop_last() =~= s.take(l));
    assert(s.take(l + 1).last() == s[l]);
}

proof fn lemma_digits_value_prefix_le(s: Seq<u8>, l: int)
    requires
        0 <= l <= s.len(),
        all_digits(s),
    ensures
        digits_value(s.take(l)) <= digits_value(s),
    decreases s.len() - l,
{
    if l == s.len() {
        assert(s.take(l) =~= s);
    } else {
        lemma_digits_value_step(s, l);
        assert(is_digit(s[l]));
        assert(digits_value(s.take(l)) <= digits_value(s.take(l + 1)));
        lemma_digits_value_prefix_le(s, l + 1);
    }
}

/// The decimal value of the digit field between `from` and `to`, or nothing
/// when the field is empty, holds a non-digit, or names a value too large
/// for the machine.
fn parse_digits(d: &Vec<u8>, from: usize, to: usize) -> (r: Option<usize>)
    requires
        from <= to <= d@.len(),
    ensures
        ({
            let field = d@.subrange(from as int, to as int);
            match r {
                Some(v) => all_digits(field) && v == digits_value(field),
                None => !(all_digits(field) && digits_value(field) <= usize::MAX),
            }
        }),
{
    let ghost field = d@.subrange(from as int, to as int);
    if from == to {
        return None;
    }
    let mut value: usize = 0;
    let mut i = from;
    while i < to
        invariant
            from <= i <= to <= d@.len(),
            field == d@.subrange(from as int, to as int),
            all_digits(field.take(i - from)) || i == from,
            value == digits_value(field.take(i - from)),
            from < to,
        decreases to - i,
    {
        let b = d[i];
        assert(field[i - from] == d@[i as int]);
        if b < 48 || b > 57 {
            assert(!is_digit(field[i - from]));
            return None;
        }
        let digit = (b - 48) as usize;
        proof {
            lemma_digits_value_step(field, i - from);
        }
        if value > (usize::MAX - digit) / 10 {
            proof {
                assert(value * 10 + digit > usize::MAX) by (nonlinear_arith)
                    requires
                        value > (usize::MAX - digit) / 10,
                        digit <= usize::MAX,
                ;
                assert(digits_value(field.take(i - from + 1)) > usize::MAX);
                if all_digits(field) {
                    lemma_digits_value_prefix_le(field, i - from + 1);
                }
            }
            return None;
        }
        proof {
            assert(value * 10 + digit <= usize::MAX) by (nonlinear_arith)
                requires
                    value <= (usize::MAX - digit) / 10,
                    digit <= usize::MAX,
            ;
        }
        value = value * 10 + digit;
        i = i + 1;
        assert(all_digits(field.take(i - from)));
    }
    assert(field.take(to - from) =~= field);
    Some(value)
}

/// The bytes of `d` between `from` and `to`, copied out.
fn copy_range(d: &Vec<u8>, from: usize, to: usize) -> (out: Vec<u8>)
    requires
        from <= to <= d@.len(),
    ensures
        out@ == d@.subrange(from as int, to as int),
{
    let mut out: Vec<u8> = Vec::new();
    let mut i = from;
    while i < to
        invariant
            from <= i <= to <= d@.len(),
            out@ == d@.subrange(from as int, i as int),
        decreases to - i,
    {
        out.push(d[i]);
        assert(out@ =~= d@.subrange(from as int, i + 1));
        i = i + 1;
    }
    assert(out@ =~= d@.subrange(from as int, to as int));
    out
}

/// Parse one directive of the shape `<row>,<col> <delete_count> <insert_text>`
/// into a structured edit. Exactly the well-formed directives parse; a
/// malformed one is returned verbatim inside the error.
pub fn parse_edit_directive(directive: &Vec<u8>) -> (r: Result<EditOperation, MalformedEdit>)
    ensures
        match r {
            Ok(op) => {
                &&& edit_directive_wf(directive@)
                &&& op.start_row == edit_row(directive@)
                &&& op.start_col == edit_col(directive@)
                &&& op.delete_count == edit_del(directive@)
                &&& op.inserted_text@ == edit_text(directive@)
            },
            Err(e) => !edit_directive_wf(directive@) && e.directive@ == directive@,
        },
{
    let ghost d = directive@;
    let n = directive.len();
    assert(d.subrange(0, n as int) =~= d);
    let space1 = match find_byte(directive, 0, n, SPACE) {
        Some(i) => i,
        None => {
            proof {
                lemma_none_in_subrange(d, 0, n as int, SPACE);
            }
            return Err(MalformedEdit { directive: copy_range(directive, 0, n) });
        },
    };
    proof {
        lemma_first_in_subrange(d, 0, n as int, SPACE, space1 as int);
        assert(split_once(d, SPACE) == Some((d.take(space1 as int), d.skip(space1 + 1))));
    }
    let ghost position = d.take(space1 as int);
    let ghost rest = d.skip(space1 + 1);
    assert(position =~= d.subrange(0, space1 as int));
    assert(rest =~= d.subrange(space1 + 1, n as int));
    let comma = match find_byte(directive, 0, space1, COMMA) {
        Some(i) => i,
        None => {
            proof {
                lemma_none_in_subrange(d, 0, space1 as int, COMMA);
            }
            return Err(MalformedEdit { directive: copy_range(directive, 0, n) });
        },
    };
    proof {
        lemma_first_in_subrange(d, 0, space1 as int, COMMA, comma as int);
        assert(position.take(comma as int) =~= d.subrange(0, comma as int));
        assert(position.skip(comma + 1) =~= d.subrange(comma + 1, space1 as int));
    }
    let ghost row_field = d.subrange(0, comma as int);
    let ghost col_field = d.subrange(comma + 1, space1 as int);
    let (del_from, del_to, text_from) = match find_byte(directive, space1 + 1, n, SPACE) {
        Some(i) => {
            proof {
                lemma_first_in_subrange(d, space1 + 1, n as int, SPACE, i as int);
                assert(rest.take(i - (space1 + 1)) =~= d.subrange(space1 + 1, i as int));
                assert(rest.skip(i - (space1 + 1) + 1) =~= d.subrange(i + 1, n as int));
            }
            (space1 + 1, i, i + 1)
        },
        None => {
            proof {
                lemma_none_in_subrange(d, space1 + 1, n as int, SPACE);
            }
            (space1 + 1, n, n)
        },
    };
    let ghost del_field = d.subrange(del_from as int, del_to as int);
    let ghost text_field = d.subrange(text_from as int, n as int);
    assert(directive_parts(d) == Some((row_field, col_field, del_field, text_field))) by {
        if text_from == n && del_to == n && del_from == space1 + 1 {
            assert(rest =~= d.subrange(space1 + 1, n as int));
            if split_once(rest, SPACE) is None {
                assert(text_field =~= Seq::<u8>::empty());
            }
        }
    }
    let start_row = match parse_digits(directive, 0, comma) {
        Some(v) => v,
        None => {
            return Err(MalformedEdit { directive: copy_range(directive, 0, n) });
        },
    };
    let start_col = match parse_digits(directive, comma + 1, space1) {
        Some(v) => v,
        None => {
            return Err(MalformedEdit { directive: copy_range(directive, 0, n) });
        },
    };
    let delete_count = match parse_digits(directive, del_from, del_to) {
        Some(v) => v,
        None => {
            return Err(MalformedEdit { directive: copy_range(directive, 0, n) });
        },
    };
    let inserted_text = copy_range(directive, text_from, n);
    Ok(EditOperation { start_row, start_col, delete_count, inserted_text })
}

/// The byte offset where `row` starts: one past its leading newlines, or the
/// buffer's end when the buffer has fewer rows.
pub open spec fn row_start(buf: Seq<u8>, row: nat) -> nat
    decreases buf.len(),
{
    if row == 0 || buf.len() == 0 {
        0
    } else if buf[0] == NEWLINE {
        1 + row_start(buf.drop_first(), (row - 1) as nat)
    } else {
        1 + row_start(buf.drop_first(), row)
    }
}

proof fn lemma_row_start_le_len(buf: Seq<u8>, row: nat)
    ensures
        row_start(buf, row) <= buf.len(),
    decreases buf.len(),
{
    if row > 0 && buf.len() > 0 {
        if buf[0] == NEWLINE {
            lemma_row_start_le_len(buf.drop_first(), (row - 1) as nat);
        } else {
            lemma_row_start_le_len(buf.drop_first(), row);
        }
    }
}

/// The byte offset a row/column position names, clamped to the buffer's end.
pub open spec fn edit_offset(buf: Seq<u8>, row: nat, col: nat) -> nat {
    if row_start(buf, row) + col <= buf.len() {
        row_start(buf, row) + col
    } else {
        buf.len()
    }
}

/// One edit applied to a byte buffer: at the offset its position names,
/// `delete_count` bytes go (clamped to the buffer's end) and the inserted
/// text takes their place.
pub open spec fn apply_edit_spec(buf: Seq<u8>, op: EditOperation) -> Seq<u8> {
    let off = edit_offset(buf, op.start_row as nat, op.start_col as nat);
    let stop = if off + op.delete_count <= buf.len() {
        off + op.delete_count
    } else {
        buf.len() as int
    };
    buf.take(off as int) + op.inserted_text@ + buf.skip(stop as int)
}

/// A list of edits applied strictly in the order given.
pub open spec fn apply_edits_spec(buf: Seq<u8>, ops: Seq<EditOperation>) -> Seq<u8>
    decreases ops.len(),
{
    if ops.len() == 0 {
        buf
    } else {
        apply_edits_spec(apply_edit_spec(buf, ops[0]), ops.drop_first())
    }
}

proof fn lemma_apply_edits_push(buf: Seq<u8>, ops: Seq<EditOperation>, op: EditOperation)
    ensures
        apply_edits_spec(buf, ops.push(op)) == apply_edit_spec(apply_edits_spec(buf, ops), op),
    decreases ops.len(),
{
    if ops.len() == 0 {
        assert(ops.push(op)[0] == op);
        assert(ops.push(op).drop_first() =~= ops);
        assert(apply_edits_spec(apply_edit_spec(buf, op), ops) == apply_edit_spec(buf, op));
    } else {
        assert(ops.push(op)[0] == ops[0]);
        assert(ops.push(op).drop_first() =~= ops.drop_first().push(op));
        lemma_apply_edits_push(apply_edit_spec(buf, ops[0]), ops.drop_first(), op);
    }
}

/// Apply one edit to a buffer, producing the new buffer.
pub fn apply_edit(buffer: &Vec<u8>, op: &EditOperation) -> (out: Vec<u8>)
    ensures
        out@ == apply_edit_spec(buffer@, *op),
{
    let n = buffer.len();
    let mut i: usize = 0;
    let mut remaining = op.start_row;
    proof {
        assert(buffer@.skip(0) =~= buffer@);
    }
    while i < n && remaining > 0
        invariant
            i <= n,
            n == buffer@.len(),
            remaining <= op.start_row,
            row_start(buffer@, op.start_row as nat) == i + row_start(
                buffer@.skip(i as int),
                remaining as nat,
            ),
        decreases n - i,
    {
        proof {
            assert(buffer@.skip(i as int)[0] == buffer@[i as int]);
            assert(buffer@.skip(i as int).drop_first() =~= buffer@.skip(i + 1));
        }
        if buffer[i] == NEWLINE {
            remaining = remaining - 1;
        }
        i = i + 1;
    }
    proof {
        if i == n {
            lemma_row_start_le_len(buffer@.skip(i as int), remaining as nat);
        }
        assert(row_start(buffer@, op.start_row as nat) == i);
    }
    let off = if op.start_col > n - i {
        n
    } else {
        i + op.start_col
    };
    assert(off == edit_offset(buffer@, op.start_row as nat, op.start_col as nat));
    let stop = if op.delete_count > n - off {
        n
    } else {
        off + op.delete_count
    };
    let mut out = copy_range(buffer, 0, off);
    assert(out@ =~= buffer@.take(off as int));
    let m = op.inserted_text.len();
    let mut j: usize = 0;
    while j < m
        invariant
            j <= m,
            m == op.inserted_text@.len(),
            off <= n == buffer@.len(),
            out@ == buffer@.take(off as int) + op.inserted_text@.take(j as int),
        decreases m - j,
    {
        out.push(op.inserted_text[j]);
        assert(out@ =~= buffer@.take(off as int) + op.inserted_text@.take(j + 1));
        j = j + 1;
    }
    assert(op.inserted_text@.take(m as int) =~= op.inserted_text@);
    let mut k = stop;
    while k < n
        invariant
            stop <= k <= n == buffer@.len(),
            off <= stop,
            out@ == buffer@.take(off as int) + op.inserted_text@ + buffer@.subrange(
                stop as int,
                k as int,
            ),
        decreases n - k,
    {
        out.push(buffer[k]);
        assert(out@ =~= buffer@.take(off as int) + op.inserted_text@ + buffer@.subrange(
            stop as int,
            k + 1,
        ));
        k = k + 1;
    }
    proof {
        assert(buffer@.subrange(stop as int, n as int) =~= buffer@.skip(stop as int));
        assert(out@ =~= apply_edit_spec(buffer@, *op));
    }
    out
}

/// Apply a list of edits to a buffer, strictly in the order given.
pub fn apply_edits(buffer: Vec<u8>, ops: &Vec<EditOperation>) -> (out: Vec<u8>)
    ensures
        out@ == apply_edits_spec(buffer@, ops@),
{
    let ghost initial = buffer@;
    let mut out = buffer;
    let n = ops.len();
    let mut k: usize = 0;
    proof {
        assert(ops@.take(0) =~= Seq::<EditOperation>::empty());
    }
    while k < n
        invariant
            k <= n,
            n == ops@.len(),
            out@ == apply_edits_spec(initial, ops@.take(k as int)),
        decreases n - k,
    {
        out = apply_edit(&out, &ops[k]);
        proof {
            lemma_apply_edits_push(initial, ops@.take(k as int), ops@[k as int]);
            assert(ops@.take(k as int).push(ops@[k as int]) =~= ops@.take(k + 1));
        }
        k = k + 1;
    }
    assert(ops@.take(n as int) =~= ops@);
    out
}

} // verus!
