//! Rules on keywords and their fields.

use crate::deck::file::{block_line, count_lines, name_of, Block, ParsedFile};
use crate::text::{decode_lossy, text_of, same_text};
use crate::validate::expr::{holds, in_words, Expr};
use crate::validate::model::{field_of, Deck, NamedFile, Occurrence};
use crate::validate::names::{base_of, canonical_base};
use crate::validate::report::{finding_views, Finding, FindingView, Severity};
use crate::validate::value::{Cmp, Value, ValueView};
use vstd::prelude::*;

verus! {

/// The finding behind others, if there is one.
pub open spec fn with_finding(s: Seq<FindingView>, f: Option<FindingView>) -> Seq<FindingView> {
    match f {
        Some(v) => s.push(v),
        None => s,
    }
}

/// The name of the keyword of a block.
pub open spec fn block_name(file: ParsedFile, b: Block) -> Seq<char> {
    text_of(name_of(file.src@, b))
}

/// The line of a block, from 1.
pub open spec fn line_of(file: ParsedFile, b: Block) -> usize {
    (1 + count_lines(file.src@.take(b.name_start as int))) as usize
}

pub open spec fn forbidden_name(keyword: Seq<char>) -> Seq<char> {
    "keyword_forbidden("@ + keyword + ")"@
}

/// What is found at a block, where its keyword is the forbidden one.
pub open spec fn forbidden_at(
    keyword: Seq<char>,
    file: ParsedFile,
    b: Block,
) -> Option<FindingView> {
    if base_of(block_name(file, b)) == base_of(keyword) {
        Some(
            FindingView {
                rule: forbidden_name(keyword),
                severity: Severity::Error,
                keyword: base_of(keyword),
                file: file.path@,
                line: line_of(file, b),
                message: "keyword *"@ + base_of(keyword) + " is not allowed here"@,
            },
        )
    } else {
        None
    }
}

/// What is found in the first `n` blocks of a file.
pub open spec fn forbidden_in(keyword: Seq<char>, file: ParsedFile, n: nat) -> Seq<FindingView>
    decreases n,
{
    if n == 0 {
        Seq::empty()
    } else {
        with_finding(
            forbidden_in(keyword, file, (n - 1) as nat),
            forbidden_at(keyword, file, file.blocks@[n - 1]),
        )
    }
}

/// What is found in the first `n` files.
pub open spec fn forbidden_upto(keyword: Seq<char>, files: Seq<ParsedFile>, n: nat) -> Seq<
    FindingView,
>
    decreases n,
{
    if n == 0 {
        Seq::empty()
    } else {
        forbidden_upto(keyword, files, (n - 1) as nat) + forbidden_in(
            keyword,
            files[n - 1],
            files[n - 1].blocks@.len(),
        )
    }
}

pub(crate) fn copy(s: &String) -> (r: String)
    ensures
        r@ == s@,
{
    String::from_str(s.as_str())
}

/// Finds the blocks whose keyword is the forbidden one.
pub fn find_forbidden(keyword: &str, deck: &Deck) -> (r: Vec<Finding>)
    requires
        deck.wf(),
    ensures
        finding_views(r@) == forbidden_upto(keyword@, deck.files@, deck.files@.len()),
{
    let base: String = canonical_base(keyword);
    let mut out: Vec<Finding> = Vec::new();
    assert(finding_views(out@) =~= Seq::<FindingView>::empty());
    for fi in 0..deck.files.len()
        invariant
            deck.wf(),
            base@ == base_of(keyword@),
            finding_views(out@) == forbidden_upto(keyword@, deck.files@, fi as nat),
    {
        let file: &ParsedFile = &deck.files[fi];
        let ghost start = finding_views(out@);
        assert(start + forbidden_in(keyword@, *file, 0) =~= start);
        for bi in 0..file.blocks.len()
            invariant
                deck.wf(),
                fi < deck.files@.len(),
                *file == deck.files@[fi as int],
                base@ == base_of(keyword@),
                finding_views(out@) == start + forbidden_in(keyword@, *file, bi as nat),
        {
            let block: Block = file.blocks[bi];
            assert(deck.files@[fi as int].wf());
            assert(deck.files@[fi as int].blocks@[bi as int].name_start < usize::MAX);
            let name: String = decode_lossy(file.keyword_name(&block));
            let b: String = canonical_base(name.as_str());
            let ghost before = finding_views(out@);
            if same_text(b.as_str(), base.as_str()) {
                let mut rule: String = String::from_str("keyword_forbidden(");
                rule.append(keyword);
                rule.append(")");
                let mut message: String = String::from_str("keyword *");
                message.append(base.as_str());
                message.append(" is not allowed here");
                let f: Finding = Finding {
                    rule,
                    severity: Severity::Error,
                    keyword: copy(&base),
                    file: copy(&file.path),
                    line: block_line(file, &block),
                    message,
                };
                out.push(f);
                assert(finding_views(out@) =~= before.push(f@));
                assert(forbidden_at(keyword@, *file, block) == Some(f@));
            }
            assert(finding_views(out@) =~= start + forbidden_in(keyword@, *file, (bi + 1) as nat));
        }
    }
    out
}

/// The occurrence is one of the keyword, in plain or annotated form.
pub open spec fn is_of(kw: Occurrence, keyword: Seq<char>) -> bool {
    base_of(kw.name@) == base_of(keyword)
}

/// One of the values is the one found.
pub open spec fn one_equals(values: Seq<Value>, v: ValueView) -> bool {
    exists|i: int| 0 <= i < values.len() && #[trigger] Cmp::Eq.of(values[i]@, v)
}

/// What is found at an occurrence whose field has a forbidden value.
pub open spec fn bad_value_at(
    keyword: Seq<char>,
    field: Seq<char>,
    values: Seq<Value>,
    kw: Occurrence,
) -> Option<FindingView> {
    match field_of(kw.fields@, field) {
        Some(v) => if is_of(kw, keyword) && one_equals(values, v) {
            Some(
                FindingView {
                    rule: "field_forbidden_values("@ + keyword + "."@ + field + ")"@,
                    severity: Severity::Error,
                    keyword: base_of(keyword),
                    file: kw.file@,
                    line: kw.line,
                    message: field + " = "@ + v.display() + " is forbidden"@,
                },
            )
        } else {
            None
        },
        None => None,
    }
}

/// What is found in the first `n` occurrences.
pub open spec fn bad_values_upto(
    keyword: Seq<char>,
    field: Seq<char>,
    values: Seq<Value>,
    kws: Seq<Occurrence>,
    n: nat,
) -> Seq<FindingView>
    decreases n,
{
    if n == 0 {
        Seq::empty()
    } else {
        with_finding(
            bad_values_upto(keyword, field, values, kws, (n - 1) as nat),
            bad_value_at(keyword, field, values, kws[n - 1]),
        )
    }
}

fn equals_one(values: &Vec<Value>, v: &Value) -> (r: bool)
    ensures
        r == one_equals(values@, v@),
{
    for i in 0..values.len()
        invariant
            forall|k: int| 0 <= k < i ==> !#[trigger] Cmp::Eq.of(values@[k]@, v@),
    {
        let hit: bool = Cmp::Eq.test(&values[i], v);
        if hit {
            return true;
        }
    }
    false
}

/// Finds the occurrences of a keyword whose field has one of the values.
pub fn find_bad_values(keyword: &str, field: &str, values: &Vec<Value>, deck: &Deck) -> (r: Vec<
    Finding,
>)
    ensures
        finding_views(r@) == bad_values_upto(
            keyword@,
            field@,
            values@,
            deck.occurrences@,
            deck.occurrences@.len(),
        ),
{
    let base: String = canonical_base(keyword);
    let mut out: Vec<Finding> = Vec::new();
    assert(finding_views(out@) =~= Seq::<FindingView>::empty());
    for i in 0..deck.occurrences.len()
        invariant
            base@ == base_of(keyword@),
            finding_views(out@) == bad_values_upto(
                keyword@,
                field@,
                values@,
                deck.occurrences@,
                i as nat,
            ),
    {
        let kw: &Occurrence = &deck.occurrences[i];
        let ghost before = finding_views(out@);
        let own: String = canonical_base(kw.name.as_str());
        if same_text(own.as_str(), base.as_str()) {
            match kw.field(field) {
                Some(v) => {
                    if equals_one(values, v) {
                        let mut rule: String = String::from_str("field_forbidden_values(");
                        rule.append(keyword);
                        rule.append(".");
                        rule.append(field);
                        rule.append(")");
                        let mut message: String = String::from_str(field);
                        message.append(" = ");
                        let shown: String = v.display();
                        message.append(shown.as_str());
                        message.append(" is forbidden");
                        let f: Finding = Finding {
                            rule,
                            severity: Severity::Error,
                            keyword: copy(&base),
                            file: copy(&kw.file),
                            line: kw.line,
                            message,
                        };
                        out.push(f);
                        assert(finding_views(out@) =~= before.push(f@));
                    }
                },
                None => {},
            }
        }
        assert(finding_views(out@) =~= with_finding(
            before,
            bad_value_at(keyword@, field@, values@, *kw),
        ));
    }
    out
}

/// The condition under which a rule asks something, in words.
pub open spec fn condition_text(when: Option<Expr>) -> Seq<char> {
    match when {
        Some(w) => " when "@ + in_words(w),
        None => Seq::empty(),
    }
}

/// What stands in the field that a rule asks for, in words.
pub open spec fn got_text(require: Expr, kw: Occurrence) -> Seq<char> {
    match require {
        Expr::Field(p) => match field_of(kw.fields@, p.field@) {
            Some(v) => ", got "@ + v.display(),
            None => Seq::empty(),
        },
        _ => Seq::empty(),
    }
}

/// What is found at an occurrence that does not meet what is asked.
pub open spec fn unmet_at(
    keyword: Seq<char>,
    when: Option<Expr>,
    require: Expr,
    kw: Occurrence,
) -> Option<FindingView> {
    if is_of(kw, keyword) && (when matches Some(w) ==> holds(w, kw)) && !holds(require, kw) {
        Some(
            FindingView {
                rule: "field_required("@ + keyword + ")"@,
                severity: Severity::Error,
                keyword: base_of(keyword),
                file: kw.file@,
                line: kw.line,
                message: "requires "@ + in_words(require) + condition_text(when) + got_text(
                    require,
                    kw,
                ),
            },
        )
    } else {
        None
    }
}

/// What is found in the first `n` occurrences.
pub open spec fn unmet_upto(
    keyword: Seq<char>,
    when: Option<Expr>,
    require: Expr,
    kws: Seq<Occurrence>,
    n: nat,
) -> Seq<FindingView>
    decreases n,
{
    if n == 0 {
        Seq::empty()
    } else {
        with_finding(
            unmet_upto(keyword, when, require, kws, (n - 1) as nat),
            unmet_at(keyword, when, require, kws[n - 1]),
        )
    }
}

fn describe_condition(when: &Option<Expr>) -> (r: String)
    ensures
        r@ == condition_text(*when),
{
    match when {
        Some(w) => {
            let mut s: String = String::from_str(" when ");
            let t: String = w.describe();
            s.append(t.as_str());
            s
        },
        None => {
            let s: String = String::from_str("");
            proof {
                reveal_strlit("");
                assert(s@ =~= Seq::<char>::empty());
            }
            s
        },
    }
}

fn describe_got(require: &Expr, kw: &Occurrence) -> (r: String)
    ensures
        r@ == got_text(*require, *kw),
{
    proof {
        reveal_strlit("");
        assert(""@ =~= Seq::<char>::empty());
    }
    match require {
        Expr::Field(p) => match kw.field(p.field.as_str()) {
            Some(v) => {
                let mut s: String = String::from_str(", got ");
                let t: String = v.display();
                s.append(t.as_str());
                s
            },
            None => String::from_str(""),
        },
        _ => String::from_str(""),
    }
}

/// Finds the occurrences of a keyword that do not meet what is asked of them.
pub fn find_unmet(keyword: &str, when: &Option<Expr>, require: &Expr, deck: &Deck) -> (r: Vec<
    Finding,
>)
    ensures
        finding_views(r@) == unmet_upto(
            keyword@,
            *when,
            *require,
            deck.occurrences@,
            deck.occurrences@.len(),
        ),
{
    let base: String = canonical_base(keyword);
    let mut out: Vec<Finding> = Vec::new();
    assert(finding_views(out@) =~= Seq::<FindingView>::empty());
    for i in 0..deck.occurrences.len()
        invariant
            base@ == base_of(keyword@),
            finding_views(out@) == unmet_upto(
                keyword@,
                *when,
                *require,
                deck.occurrences@,
                i as nat,
            ),
    {
        let kw: &Occurrence = &deck.occurrences[i];
        let ghost before = finding_views(out@);
        let own: String = canonical_base(kw.name.as_str());
        if same_text(own.as_str(), base.as_str()) {
            let applies: bool = match when {
                Some(w) => w.eval(kw),
                None => true,
            };
            if applies && !require.eval(kw) {
                let mut rule: String = String::from_str("field_required(");
                rule.append(keyword);
                rule.append(")");
                let mut message: String = String::from_str("requires ");
                let asked: String = require.describe();
                message.append(asked.as_str());
                let cond: String = describe_condition(when);
                message.append(cond.as_str());
                let got: String = describe_got(require, kw);
                message.append(got.as_str());
                let f: Finding = Finding {
                    rule,
                    severity: Severity::Error,
                    keyword: copy(&base),
                    file: copy(&kw.file),
                    line: kw.line,
                    message,
                };
                out.push(f);
                assert(finding_views(out@) =~= before.push(f@));
            }
        }
        assert(finding_views(out@) =~= with_finding(
            before,
            unmet_at(keyword@, *when, *require, *kw),
        ));
    }
    out
}

/// What is found of a named file that is not there.
pub open spec fn missing_at(files: Seq<ParsedFile>, f: NamedFile) -> Option<FindingView> {
    if !f.exists {
        Some(
            FindingView {
                rule: "include_missing"@,
                severity: Severity::Error,
                keyword: "INCLUDE"@,
                file: files[f.from as int].path@,
                line: 0,
                message: "include '"@ + f.raw_path@ + "' resolves to a missing file: "@
                    + f.resolved_path@,
            },
        )
    } else {
        None
    }
}

/// What is found of the first `n` named files.
pub open spec fn missing_upto(deck: Deck, n: nat) -> Seq<FindingView>
    decreases n,
{
    if n == 0 {
        Seq::empty()
    } else {
        with_finding(
            missing_upto(deck, (n - 1) as nat),
            missing_at(deck.files@, deck.named_files@[n - 1]),
        )
    }
}

/// Finds the named files that are not there.
pub fn find_missing(deck: &Deck) -> (r: Vec<Finding>)
    requires
        deck.wf(),
    ensures
        finding_views(r@) == missing_upto(*deck, deck.named_files@.len()),
{
    let mut out: Vec<Finding> = Vec::new();
    assert(finding_views(out@) =~= Seq::<FindingView>::empty());
    for i in 0..deck.named_files.len()
        invariant
            deck.wf(),
            finding_views(out@) == missing_upto(*deck, i as nat),
    {
        let ghost before = finding_views(out@);
        let named: &NamedFile = &deck.named_files[i];
        assert(deck.named_files@[i as int].from < deck.files@.len());
        if !named.exists {
            let mut message: String = String::from_str("include '");
            message.append(named.raw_path.as_str());
            message.append("' resolves to a missing file: ");
            message.append(named.resolved_path.as_str());
            let f: Finding = Finding {
                rule: String::from_str("include_missing"),
                severity: Severity::Error,
                keyword: String::from_str("INCLUDE"),
                file: copy(&deck.files[named.from].path),
                line: 0,
                message,
            };
            out.push(f);
            assert(finding_views(out@) =~= before.push(f@));
        }
        assert(finding_views(out@) =~= with_finding(before, missing_at(deck.files@, *named)));
    }
    out
}

} // verus!
