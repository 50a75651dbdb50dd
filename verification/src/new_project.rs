//! The configuration that `belt new` writes reads back as the project it names.
use vstd::prelude::*;

use crate::config::{BuildMode, ConfigView, FreeStanding, ProjectView, default_layout};
use crate::leather::analyzer::{config_meaning, project_fold, project_meaning, no_project_fields, no_sections, sections_fold};
use crate::leather::lexer::{
    Cursor, TokenType, TokenView, char_at, ident_char_at, keyword_of, lex, lex_tokens, next_token, scan_identifier,
    scan_string, skip_blanks, step,
};
use crate::leather::parser::{parse_expr, parse_file, parse_head, parse_sec, parse_secs, parse_var, parse_vars, tok};

verus! {

pub open spec fn version_text() -> Seq<char> {
    seq!['0', '.', '1', '.', '0']
}

pub open spec fn entry_text() -> Seq<char> {
    seq!['s', 'r', 'c', '/', 'm', 'a', 'i', 'n', '.', 'u', 'n', 'n']
}

pub open spec fn executable_text() -> Seq<char> {
    seq!['e', 'x', 'e', 'c', 'u', 't', 'a', 'b', 'l', 'e']
}

/// The configuration of a fresh project named `name`.
pub open spec fn new_project_config(name: Seq<char>) -> ConfigView {
    ConfigView {
        project: ProjectView {
            name,
            version: version_text(),
            entry: Some(entry_text()),
            mode: BuildMode::Executable,
            target: None,
            freestanding: FreeStanding::False,
            script: None,
        },
        layout: default_layout(),
        dependecies: None,
        link: None,
        commands: None,
    }
}

/// The tokens of a fresh project's `belt.lethr`, by type and text.
pub open spec fn new_project_tokens(ts: Seq<TokenView>, name: Seq<char>) -> bool {
    &&& ts.len() == 16
    &&& ts[0].token_type == TokenType::LSquare
    &&& ts[1].token_type == TokenType::Project
    &&& ts[2].token_type == TokenType::RSquare
    &&& ts[3].token_type == TokenType::Name
    &&& ts[4].token_type == TokenType::Assign
    &&& ts[5].token_type == TokenType::String && ts[5].literal == name
    &&& ts[6].token_type == TokenType::Version
    &&& ts[7].token_type == TokenType::Assign
    &&& ts[8].token_type == TokenType::String && ts[8].literal == version_text()
    &&& ts[9].token_type == TokenType::Entry
    &&& ts[10].token_type == TokenType::Assign
    &&& ts[11].token_type == TokenType::String && ts[11].literal == entry_text()
    &&& ts[12].token_type == TokenType::Mode
    &&& ts[13].token_type == TokenType::Assign
    &&& ts[14].token_type == TokenType::Executable && ts[14].literal == executable_text()
    &&& ts[15].token_type == TokenType::End
}

proof fn lemma_var_at(ts: Seq<TokenView>, name: Seq<char>, p: int)
    requires
        new_project_tokens(ts, name),
        p == 3 || p == 6 || p == 9 || p == 12,
    ensures
        parse_var(ts, p) matches Ok((v, q)) && q == p + 3 && crate::leather::analyzer::keyword_key(v)
            == Some(ts[p].token_type) && crate::leather::analyzer::value_text(v.value) == Some(ts[p + 2].literal),
{
    assert(tok(ts, p) == ts[p]);
    assert(tok(ts, p + 1) == ts[p + 1]);
    assert(tok(ts, p + 2) == ts[p + 2]);
}

/// The tokens of a fresh project's `belt.lethr` parse and mean the fresh project's configuration.
proof fn lemma_new_project_tokens_mean(ts: Seq<TokenView>, name: Seq<char>)
    requires
        new_project_tokens(ts, name),
    ensures
        parse_file(ts, 0) matches Ok((secs, _)) && config_meaning(secs) == Ok::<ConfigView, crate::leather::analyzer::SemanticErrorView>(
            new_project_config(name),
        ),
{
    assert(tok(ts, 0) == ts[0]);
    assert(tok(ts, 1) == ts[1]);
    assert(tok(ts, 2) == ts[2]);
    assert(tok(ts, 15) == ts[15]);
    let (head, p0) = parse_head(ts, 0)->Ok_0;
    assert(p0 == 3);
    lemma_var_at(ts, name, 3);
    lemma_var_at(ts, name, 6);
    lemma_var_at(ts, name, 9);
    lemma_var_at(ts, name, 12);
    let (v1, _) = parse_var(ts, 3)->Ok_0;
    let (v2, _) = parse_var(ts, 6)->Ok_0;
    let (v3, _) = parse_var(ts, 9)->Ok_0;
    let (v4, _) = parse_var(ts, 12)->Ok_0;
    assert(tok(ts, 3) == ts[3]);
    assert(tok(ts, 6) == ts[6]);
    assert(tok(ts, 9) == ts[9]);
    assert(tok(ts, 12) == ts[12]);
    let vars = seq![v1, v2, v3, v4];
    assert(parse_vars(ts, 15, vars) == Ok::<_, crate::leather::parser::ParseError>((vars, 15int)));
    assert(parse_vars(ts, 12, seq![v1, v2, v3]) == parse_vars(ts, 15, seq![v1, v2, v3].push(v4)));
    assert(seq![v1, v2, v3].push(v4) =~= vars);
    assert(parse_vars(ts, 9, seq![v1, v2]) == parse_vars(ts, 12, seq![v1, v2].push(v3)));
    assert(seq![v1, v2].push(v3) =~= seq![v1, v2, v3]);
    assert(parse_vars(ts, 6, seq![v1]) == parse_vars(ts, 9, seq![v1].push(v2)));
    assert(seq![v1].push(v2) =~= seq![v1, v2]);
    assert(parse_vars(ts, 3, Seq::empty()) == parse_vars(ts, 6, Seq::<crate::leather::parser::VariableView>::empty().push(v1)));
    assert(Seq::<crate::leather::parser::VariableView>::empty().push(v1) =~= seq![v1]);
    assert(parse_vars(ts, 3, Seq::empty()) == Ok::<_, crate::leather::parser::ParseError>((vars, 15int)));
    let sec = crate::leather::parser::SectionView {
        lbracket: head.lbracket,
        head: head.head,
        rbracket: head.rbracket,
        contents: vars,
    };
    assert(parse_sec(ts, 0) == Ok::<_, crate::leather::parser::ParseError>((sec, 15int)));
    assert(parse_secs(ts, 15, seq![sec]) == Ok::<_, crate::leather::parser::ParseError>((seq![sec], 15int)));
    assert(Seq::<crate::leather::parser::SectionView>::empty().push(sec) =~= seq![sec]);
    assert(parse_file(ts, 0) == Ok::<_, crate::leather::parser::ParseError>((seq![sec], 15int)));

    // what the section means
    let f0 = no_project_fields();
    let f1 = crate::leather::analyzer::project_step(f0, v1)->Ok_0;
    let f2 = crate::leather::analyzer::project_step(f1, v2)->Ok_0;
    let f3 = crate::leather::analyzer::project_step(f2, v3)->Ok_0;
    let f4 = crate::leather::analyzer::project_step(f3, v4)->Ok_0;
    assert(f4.name == Some(name));
    assert(f4.version == Some(version_text()));
    assert(f4.entry == Some(entry_text()));
    assert(crate::leather::analyzer::mode_of(executable_text()) == Some(BuildMode::Executable));
    assert(f4.mode == Some(BuildMode::Executable));
    assert(project_fold(vars, 4, f4) == Ok::<_, crate::leather::analyzer::SemanticErrorView>(f4));
    assert(vars[3] == v4);
    assert(project_fold(vars, 3, f3) == project_fold(vars, 4, f4));
    assert(vars[2] == v3);
    assert(project_fold(vars, 2, f2) == project_fold(vars, 3, f3));
    assert(vars[1] == v2);
    assert(project_fold(vars, 1, f1) == project_fold(vars, 2, f2));
    assert(vars[0] == v1);
    assert(project_fold(vars, 0, f0) == project_fold(vars, 1, f1));
    assert(project_meaning(vars) == Ok::<_, crate::leather::analyzer::SemanticErrorView>(new_project_config(name).project));
    assert(seq![sec][0] == sec);
    assert(sections_fold(seq![sec], 1, crate::leather::analyzer::Sections { project: Some(new_project_config(name).project), ..no_sections() })
        == Ok::<_, crate::leather::analyzer::SemanticErrorView>(
        crate::leather::analyzer::Sections { project: Some(new_project_config(name).project), ..no_sections() },
    ));
}

/// The characters from `p` on, for `k` of them, are spaces or newlines.
pub open spec fn blanks_at(input: Seq<char>, p: int, k: int) -> bool {
    forall|j: int| 0 <= j < k ==> (#[trigger] input[p + j] == ' ' || input[p + j] == '\n')
}

pub open spec fn lower(c: char) -> bool {
    'a' <= c && c <= 'z'
}

/// Characters that a string literal takes as they are.
pub open spec fn plain(c: char) -> bool {
    c != '"' && c != '\\' && c != '\n' && c != '\0'
}

proof fn lemma_blanks(input: Seq<char>, c: Cursor, k: int)
    requires
        0 <= c.pos,
        0 <= k,
        c.pos + k <= input.len(),
        blanks_at(input, c.pos, k),
        c.pos + k < input.len() ==> input[c.pos + k] != ' ' && input[c.pos + k] != '\n' && input[c.pos + k] != '\t'
            && input[c.pos + k] != '\r' && input[c.pos + k] != '#',
    ensures
        skip_blanks(input, c) matches Some(c1) && c1.pos == c.pos + k,
    decreases k,
{
    if k > 0 {
        assert(input[c.pos + 0] == ' ' || input[c.pos + 0] == '\n');
        assert(blanks_at(input, c.pos + 1, k - 1)) by {
            assert forall|j: int| 0 <= j < k - 1 implies (#[trigger] input[c.pos + 1 + j] == ' ' || input[c.pos + 1 + j] == '\n') by {
                assert(input[c.pos + (j + 1)] == ' ' || input[c.pos + (j + 1)] == '\n');
            }
        }
        lemma_blanks(input, step(input, c), k - 1);
    }
}

proof fn lemma_word(input: Seq<char>, c: Cursor, k: int)
    requires
        0 <= c.pos,
        0 <= k,
        c.pos + k <= input.len(),
        forall|j: int| 0 <= j < k ==> #[trigger] lower(input[c.pos + j]),
        !ident_char_at(input, c.pos + k),
    ensures
        scan_identifier(input, c).pos == c.pos + k,
    decreases k,
{
    if k > 0 {
        assert(lower(input[c.pos + 0]));
        assert(ident_char_at(input, c.pos));
        assert forall|j: int| 0 <= j < k - 1 implies #[trigger] lower(input[c.pos + 1 + j]) by {
            assert(lower(input[c.pos + (j + 1)]));
        }
        lemma_word(input, step(input, c), k - 1);
    } else {
        assert(!ident_char_at(input, c.pos));
    }
}

proof fn lemma_plain_string(input: Seq<char>, c: Cursor, acc: Seq<char>, k: int)
    requires
        0 <= c.pos,
        0 <= k,
        c.pos + k < input.len(),
        forall|j: int| 0 <= j < k ==> #[trigger] plain(input[c.pos + j]),
        input[c.pos + k] == '"',
    ensures
        scan_string(input, c, acc).0.token_type == TokenType::String,
        scan_string(input, c, acc).0.literal == acc + input.subrange(c.pos, c.pos + k),
        scan_string(input, c, acc).1.pos == c.pos + k + 1,
    decreases k,
{
    if k > 0 {
        let ch = input[c.pos];
        assert(plain(input[c.pos + 0]));
        assert forall|j: int| 0 <= j < k - 1 implies #[trigger] plain(input[c.pos + 1 + j]) by {
            assert(plain(input[c.pos + (j + 1)]));
        }
        lemma_plain_string(input, step(input, c), acc.push(ch), k - 1);
        assert(acc.push(ch) + input.subrange(c.pos + 1, c.pos + k) =~= acc + input.subrange(c.pos, c.pos + k));
    } else {
        assert(acc + input.subrange(c.pos, c.pos) =~= acc);
    }
}

/// One token after `k` blanks: lexing goes on after it.
proof fn lemma_lex_step(input: Seq<char>, c: Cursor, acc: Seq<TokenView>, k: int) -> (r: (TokenView, Cursor))
    requires
        0 <= c.pos,
        0 <= k,
        c.pos + k < input.len(),
        blanks_at(input, c.pos, k),
        input[c.pos + k] != ' ' && input[c.pos + k] != '\n' && input[c.pos + k] != '\t' && input[c.pos + k] != '\r'
            && input[c.pos + k] != '#',
    ensures
        skip_blanks(input, c) matches Some(c1) && c1.pos == c.pos + k && r == next_token(input, c1),
        lex_tokens(input, c, acc) == lex_tokens(input, r.1, acc.push(r.0)),
{
    lemma_blanks(input, c, k);
    let c1 = skip_blanks(input, c)->0;
    next_token(input, c1)
}

/// The text of a fresh project's `belt.lethr` before its name.
pub open spec fn lethr_head() -> Seq<char> {
    seq!['[', 'p', 'r', 'o', 'j', 'e', 'c', 't', ']', '\n', 'n', 'a', 'm', 'e', ' ', '=', ' ', '"']
}

/// The text of a fresh project's `belt.lethr` after its name.
pub open spec fn lethr_tail() -> Seq<char> {
    seq!['"', '\n', 'v', 'e', 'r', 's', 'i', 'o', 'n', ' ', '=', ' ', '"', '0', '.', '1', '.', '0', '"', '\n', 'e', 'n', 't', 'r', 'y', ' ', '=', ' ', '"', 's', 'r', 'c', '/', 'm', 'a', 'i', 'n', '.', 'u', 'n', 'n', '"', '\n', 'm', 'o', 'd', 'e', ' ', '=', ' ', 'e', 'x', 'e', 'c', 'u', 't', 'a', 'b', 'l', 'e', '\n']
}

/// A name that a string literal holds as it is.
pub open spec fn plain_name(name: Seq<char>) -> bool {
    forall|j: int| 0 <= j < name.len() ==> #[trigger] plain(name[j])
}

#[verifier::rlimit(100)]
proof fn lemma_new_project_lexes(name: Seq<char>)
    requires
        plain_name(name),
    ensures
        lex(lethr_head() + name + lethr_tail(), Cursor { pos: 0, line: 1, col: 1 }) matches Ok((ts, _))
            && new_project_tokens(ts, name),
{
    let input = lethr_head() + name + lethr_tail();
    let n = name.len() as int;
    let b = 18 + n;
    assert(input.len() == b + 61);
    let c_start = Cursor { pos: 0, line: 1, col: 1 };
    // token 0
    assert(c_start.pos == 0);
    assert(blanks_at(input, c_start.pos, 0)) by {
    }
    assert(input[0] == '[');
    let acc0 = Seq::<TokenView>::empty();
    let (t0, c0) = lemma_lex_step(input, c_start, acc0, 0);
    let sk0 = skip_blanks(input, c_start)->0;
    assert(sk0.pos == 0);
    assert(t0.token_type == crate::leather::lexer::symbol_type('[') && c0.pos == 1);
    // token 1
    assert(c0.pos == 1);
    assert(blanks_at(input, c0.pos, 0)) by {
    }
    assert(input[1] == 'p');
    let acc1 = acc0.push(t0);
    let (t1, c1) = lemma_lex_step(input, c0, acc1, 0);
    let sk1 = skip_blanks(input, c0)->0;
    assert(sk1.pos == 1);
    assert(input[1] == 'p');
    assert(input[2] == 'r');
    assert(input[3] == 'o');
    assert(input[4] == 'j');
    assert(input[5] == 'e');
    assert(input[6] == 'c');
    assert(input[7] == 't');
    assert(input[8] == ']');
    assert forall|j: int| 0 <= j < 7 implies #[trigger] lower(input[sk1.pos + j]) by {
        if j == 0 { assert(input[1] == 'p'); } else if j == 1 { assert(input[2] == 'r'); } else if j == 2 { assert(input[3] == 'o'); } else if j == 3 { assert(input[4] == 'j'); } else if j == 4 { assert(input[5] == 'e'); } else if j == 5 { assert(input[6] == 'c'); } else if j == 6 { assert(input[7] == 't'); }
    }
    lemma_word(input, sk1, 7);
    assert(input.subrange(1, 8) =~= seq!['p', 'r', 'o', 'j', 'e', 'c', 't']);
    assert(t1.literal == seq!['p', 'r', 'o', 'j', 'e', 'c', 't'] && c1.pos == 8);
    // token 2
    assert(c1.pos == 8);
    assert(blanks_at(input, c1.pos, 0)) by {
    }
    assert(input[8] == ']');
    let acc2 = acc1.push(t1);
    let (t2, c2) = lemma_lex_step(input, c1, acc2, 0);
    let sk2 = skip_blanks(input, c1)->0;
    assert(sk2.pos == 8);
    assert(t2.token_type == crate::leather::lexer::symbol_type(']') && c2.pos == 9);
    // token 3
    assert(c2.pos == 9);
    assert(input[9] == '\n');
    assert(blanks_at(input, c2.pos, 1)) by {
        assert forall|j: int| 0 <= j < 1 implies (#[trigger] input[c2.pos + j] == ' ' || input[c2.pos + j] == '\n') by {
            assert(j == 0);
        }
    }
    assert(input[10] == 'n');
    let acc3 = acc2.push(t2);
    let (t3, c3) = lemma_lex_step(input, c2, acc3, 1);
    let sk3 = skip_blanks(input, c2)->0;
    assert(sk3.pos == 10);
    assert(input[10] == 'n');
    assert(input[11] == 'a');
    assert(input[12] == 'm');
    assert(input[13] == 'e');
    assert(input[14] == ' ');
    assert forall|j: int| 0 <= j < 4 implies #[trigger] lower(input[sk3.pos + j]) by {
        if j == 0 { assert(input[10] == 'n'); } else if j == 1 { assert(input[11] == 'a'); } else if j == 2 { assert(input[12] == 'm'); } else if j == 3 { assert(input[13] == 'e'); }
    }
    lemma_word(input, sk3, 4);
    assert(input.subrange(10, 14) =~= seq!['n', 'a', 'm', 'e']);
    assert(t3.literal == seq!['n', 'a', 'm', 'e'] && c3.pos == 14);
    // token 4
    assert(c3.pos == 14);
    assert(input[14] == ' ');
    assert(blanks_at(input, c3.pos, 1)) by {
        assert forall|j: int| 0 <= j < 1 implies (#[trigger] input[c3.pos + j] == ' ' || input[c3.pos + j] == '\n') by {
            assert(j == 0);
        }
    }
    assert(input[15] == '=');
    let acc4 = acc3.push(t3);
    let (t4, c4) = lemma_lex_step(input, c3, acc4, 1);
    let sk4 = skip_blanks(input, c3)->0;
    assert(sk4.pos == 15);
    assert(t4.token_type == crate::leather::lexer::symbol_type('=') && c4.pos == 16);
    // token 5
    assert(c4.pos == 16);
    assert(input[16] == ' ');
    assert(blanks_at(input, c4.pos, 1)) by {
        assert forall|j: int| 0 <= j < 1 implies (#[trigger] input[c4.pos + j] == ' ' || input[c4.pos + j] == '\n') by {
            assert(j == 0);
        }
    }
    assert(input[17] == '"');
    let acc5 = acc4.push(t4);
    let (t5, c5) = lemma_lex_step(input, c4, acc5, 1);
    let sk5 = skip_blanks(input, c4)->0;
    assert(sk5.pos == 17);
    assert forall|j: int| 0 <= j < n implies #[trigger] plain(input[sk5.pos + 1 + j]) by {
        assert(input[18 + j] == name[j]);
    }
    assert(input[b] == '"');
    lemma_plain_string(input, step(input, sk5), Seq::empty(), n);
    assert(input.subrange(18, 18 + n) =~= name);
    assert(Seq::<char>::empty() + name =~= name);
    assert(t5.token_type == TokenType::String && t5.literal == name && c5.pos == b + 1);
    // token 6
    assert(c5.pos == (b + 1));
    assert(input[(b + 1)] == '\n');
    assert(blanks_at(input, c5.pos, 1)) by {
        assert forall|j: int| 0 <= j < 1 implies (#[trigger] input[c5.pos + j] == ' ' || input[c5.pos + j] == '\n') by {
            assert(j == 0);
        }
    }
    assert(input[(b + 2)] == 'v');
    let acc6 = acc5.push(t5);
    let (t6, c6) = lemma_lex_step(input, c5, acc6, 1);
    let sk6 = skip_blanks(input, c5)->0;
    assert(sk6.pos == (b + 2));
    assert(input[(b + 2)] == 'v');
    assert(input[(b + 3)] == 'e');
    assert(input[(b + 4)] == 'r');
    assert(input[(b + 5)] == 's');
    assert(input[(b + 6)] == 'i');
    assert(input[(b + 7)] == 'o');
    assert(input[(b + 8)] == 'n');
    assert(input[(b + 9)] == ' ');
    assert forall|j: int| 0 <= j < 7 implies #[trigger] lower(input[sk6.pos + j]) by {
        if j == 0 { assert(input[(b + 2)] == 'v'); } else if j == 1 { assert(input[(b + 3)] == 'e'); } else if j == 2 { assert(input[(b + 4)] == 'r'); } else if j == 3 { assert(input[(b + 5)] == 's'); } else if j == 4 { assert(input[(b + 6)] == 'i'); } else if j == 5 { assert(input[(b + 7)] == 'o'); } else if j == 6 { assert(input[(b + 8)] == 'n'); }
    }
    lemma_word(input, sk6, 7);
    assert(input.subrange((b + 2), (b + 9)) =~= seq!['v', 'e', 'r', 's', 'i', 'o', 'n']);
    assert(t6.literal == seq!['v', 'e', 'r', 's', 'i', 'o', 'n'] && c6.pos == (b + 9));
    // token 7
    assert(c6.pos == (b + 9));
    assert(input[(b + 9)] == ' ');
    assert(blanks_at(input, c6.pos, 1)) by {
        assert forall|j: int| 0 <= j < 1 implies (#[trigger] input[c6.pos + j] == ' ' || input[c6.pos + j] == '\n') by {
            assert(j == 0);
        }
    }
    assert(input[(b + 10)] == '=');
    let acc7 = acc6.push(t6);
    let (t7, c7) = lemma_lex_step(input, c6, acc7, 1);
    let sk7 = skip_blanks(input, c6)->0;
    assert(sk7.pos == (b + 10));
    assert(t7.token_type == crate::leather::lexer::symbol_type('=') && c7.pos == (b + 11));
    // token 8
    assert(c7.pos == (b + 11));
    assert(input[(b + 11)] == ' ');
    assert(blanks_at(input, c7.pos, 1)) by {
        assert forall|j: int| 0 <= j < 1 implies (#[trigger] input[c7.pos + j] == ' ' || input[c7.pos + j] == '\n') by {
            assert(j == 0);
        }
    }
    assert(input[(b + 12)] == '"');
    let acc8 = acc7.push(t7);
    let (t8, c8) = lemma_lex_step(input, c7, acc8, 1);
    let sk8 = skip_blanks(input, c7)->0;
    assert(sk8.pos == (b + 12));
    assert(input[(b + 13)] == '0');
    assert(input[(b + 14)] == '.');
    assert(input[(b + 15)] == '1');
    assert(input[(b + 16)] == '.');
    assert(input[(b + 17)] == '0');
    assert(input[(b + 18)] == '"');
    assert forall|j: int| 0 <= j < 5 implies #[trigger] plain(input[sk8.pos + 1 + j]) by {
        if j == 0 { assert(input[(b + 13)] == '0'); } else if j == 1 { assert(input[(b + 14)] == '.'); } else if j == 2 { assert(input[(b + 15)] == '1'); } else if j == 3 { assert(input[(b + 16)] == '.'); } else if j == 4 { assert(input[(b + 17)] == '0'); }
    }
    lemma_plain_string(input, step(input, sk8), Seq::empty(), 5);
    assert(input.subrange((b + 13), (b + 18)) =~= seq!['0', '.', '1', '.', '0']);
    assert(Seq::<char>::empty() + seq!['0', '.', '1', '.', '0'] =~= seq!['0', '.', '1', '.', '0']);
    assert(t8.token_type == TokenType::String && t8.literal == seq!['0', '.', '1', '.', '0'] && c8.pos == (b + 19));
    // token 9
    assert(c8.pos == (b + 19));
    assert(input[(b + 19)] == '\n');
    assert(blanks_at(input, c8.pos, 1)) by {
        assert forall|j: int| 0 <= j < 1 implies (#[trigger] input[c8.pos + j] == ' ' || input[c8.pos + j] == '\n') by {
            assert(j == 0);
        }
    }
    assert(input[(b + 20)] == 'e');
    let acc9 = acc8.push(t8);
    let (t9, c9) = lemma_lex_step(input, c8, acc9, 1);
    let sk9 = skip_blanks(input, c8)->0;
    assert(sk9.pos == (b + 20));
    assert(input[(b + 20)] == 'e');
    assert(input[(b + 21)] == 'n');
    assert(input[(b + 22)] == 't');
    assert(input[(b + 23)] == 'r');
    assert(input[(b + 24)] == 'y');
    assert(input[(b + 25)] == ' ');
    assert forall|j: int| 0 <= j < 5 implies #[trigger] lower(input[sk9.pos + j]) by {
        if j == 0 { assert(input[(b + 20)] == 'e'); } else if j == 1 { assert(input[(b + 21)] == 'n'); } else if j == 2 { assert(input[(b + 22)] == 't'); } else if j == 3 { assert(input[(b + 23)] == 'r'); } else if j == 4 { assert(input[(b + 24)] == 'y'); }
    }
    lemma_word(input, sk9, 5);
    assert(input.subrange((b + 20), (b + 25)) =~= seq!['e', 'n', 't', 'r', 'y']);
    assert(t9.literal == seq!['e', 'n', 't', 'r', 'y'] && c9.pos == (b + 25));
    // token 10
    assert(c9.pos == (b + 25));
    assert(input[(b + 25)] == ' ');
    assert(blanks_at(input, c9.pos, 1)) by {
        assert forall|j: int| 0 <= j < 1 implies (#[trigger] input[c9.pos + j] == ' ' || input[c9.pos + j] == '\n') by {
            assert(j == 0);
        }
    }
    assert(input[(b + 26)] == '=');
    let acc10 = acc9.push(t9);
    let (t10, c10) = lemma_lex_step(input, c9, acc10, 1);
    let sk10 = skip_blanks(input, c9)->0;
    assert(sk10.pos == (b + 26));
    assert(t10.token_type == crate::leather::lexer::symbol_type('=') && c10.pos == (b + 27));
    // token 11
    assert(c10.pos == (b + 27));
    assert(input[(b + 27)] == ' ');
    assert(blanks_at(input, c10.pos, 1)) by {
        assert forall|j: int| 0 <= j < 1 implies (#[trigger] input[c10.pos + j] == ' ' || input[c10.pos + j] == '\n') by {
            assert(j == 0);
        }
    }
    assert(input[(b + 28)] == '"');
    let acc11 = acc10.push(t10);
    let (t11, c11) = lemma_lex_step(input, c10, acc11, 1);
    let sk11 = skip_blanks(input, c10)->0;
    assert(sk11.pos == (b + 28));
    assert(input[(b + 29)] == 's');
    assert(input[(b + 30)] == 'r');
    assert(input[(b + 31)] == 'c');
    assert(input[(b + 32)] == '/');
    assert(input[(b + 33)] == 'm');
    assert(input[(b + 34)] == 'a');
    assert(input[(b + 35)] == 'i');
    assert(input[(b + 36)] == 'n');
    assert(input[(b + 37)] == '.');
    assert(input[(b + 38)] == 'u');
    assert(input[(b + 39)] == 'n');
    assert(input[(b + 40)] == 'n');
    assert(input[(b + 41)] == '"');
    assert forall|j: int| 0 <= j < 12 implies #[trigger] plain(input[sk11.pos + 1 + j]) by {
        if j == 0 { assert(input[(b + 29)] == 's'); } else if j == 1 { assert(input[(b + 30)] == 'r'); } else if j == 2 { assert(input[(b + 31)] == 'c'); } else if j == 3 { assert(input[(b + 32)] == '/'); } else if j == 4 { assert(input[(b + 33)] == 'm'); } else if j == 5 { assert(input[(b + 34)] == 'a'); } else if j == 6 { assert(input[(b + 35)] == 'i'); } else if j == 7 { assert(input[(b + 36)] == 'n'); } else if j == 8 { assert(input[(b + 37)] == '.'); } else if j == 9 { assert(input[(b + 38)] == 'u'); } else if j == 10 { assert(input[(b + 39)] == 'n'); } else if j == 11 { assert(input[(b + 40)] == 'n'); }
    }
    lemma_plain_string(input, step(input, sk11), Seq::empty(), 12);
    assert(input.subrange((b + 29), (b + 41)) =~= seq!['s', 'r', 'c', '/', 'm', 'a', 'i', 'n', '.', 'u', 'n', 'n']);
    assert(Seq::<char>::empty() + seq!['s', 'r', 'c', '/', 'm', 'a', 'i', 'n', '.', 'u', 'n', 'n'] =~= seq!['s', 'r', 'c', '/', 'm', 'a', 'i', 'n', '.', 'u', 'n', 'n']);
    assert(t11.token_type == TokenType::String && t11.literal == seq!['s', 'r', 'c', '/', 'm', 'a', 'i', 'n', '.', 'u', 'n', 'n'] && c11.pos == (b + 42));
    // token 12
    assert(c11.pos == (b + 42));
    assert(input[(b + 42)] == '\n');
    assert(blanks_at(input, c11.pos, 1)) by {
        assert forall|j: int| 0 <= j < 1 implies (#[trigger] input[c11.pos + j] == ' ' || input[c11.pos + j] == '\n') by {
            assert(j == 0);
        }
    }
    assert(input[(b + 43)] == 'm');
    let acc12 = acc11.push(t11);
    let (t12, c12) = lemma_lex_step(input, c11, acc12, 1);
    let sk12 = skip_blanks(input, c11)->0;
    assert(sk12.pos == (b + 43));
    assert(input[(b + 43)] == 'm');
    assert(input[(b + 44)] == 'o');
    assert(input[(b + 45)] == 'd');
    assert(input[(b + 46)] == 'e');
    assert(input[(b + 47)] == ' ');
    assert forall|j: int| 0 <= j < 4 implies #[trigger] lower(input[sk12.pos + j]) by {
        if j == 0 { assert(input[(b + 43)] == 'm'); } else if j == 1 { assert(input[(b + 44)] == 'o'); } else if j == 2 { assert(input[(b + 45)] == 'd'); } else if j == 3 { assert(input[(b + 46)] == 'e'); }
    }
    lemma_word(input, sk12, 4);
    assert(input.subrange((b + 43), (b + 47)) =~= seq!['m', 'o', 'd', 'e']);
    assert(t12.literal == seq!['m', 'o', 'd', 'e'] && c12.pos == (b + 47));
    // token 13
    assert(c12.pos == (b + 47));
    assert(input[(b + 47)] == ' ');
    assert(blanks_at(input, c12.pos, 1)) by {
        assert forall|j: int| 0 <= j < 1 implies (#[trigger] input[c12.pos + j] == ' ' || input[c12.pos + j] == '\n') by {
            assert(j == 0);
        }
    }
    assert(input[(b + 48)] == '=');
    let acc13 = acc12.push(t12);
    let (t13, c13) = lemma_lex_step(input, c12, acc13, 1);
    let sk13 = skip_blanks(input, c12)->0;
    assert(sk13.pos == (b + 48));
    assert(t13.token_type == crate::leather::lexer::symbol_type('=') && c13.pos == (b + 49));
    // token 14
    assert(c13.pos == (b + 49));
    assert(input[(b + 49)] == ' ');
    assert(blanks_at(input, c13.pos, 1)) by {
        assert forall|j: int| 0 <= j < 1 implies (#[trigger] input[c13.pos + j] == ' ' || input[c13.pos + j] == '\n') by {
            assert(j == 0);
        }
    }
    assert(input[(b + 50)] == 'e');
    let acc14 = acc13.push(t13);
    let (t14, c14) = lemma_lex_step(input, c13, acc14, 1);
    let sk14 = skip_blanks(input, c13)->0;
    assert(sk14.pos == (b + 50));
    assert(input[(b + 50)] == 'e');
    assert(input[(b + 51)] == 'x');
    assert(input[(b + 52)] == 'e');
    assert(input[(b + 53)] == 'c');
    assert(input[(b + 54)] == 'u');
    assert(input[(b + 55)] == 't');
    assert(input[(b + 56)] == 'a');
    assert(input[(b + 57)] == 'b');
    assert(input[(b + 58)] == 'l');
    assert(input[(b + 59)] == 'e');
    assert(input[(b + 60)] == '\n');
    assert forall|j: int| 0 <= j < 10 implies #[trigger] lower(input[sk14.pos + j]) by {
        if j == 0 { assert(input[(b + 50)] == 'e'); } else if j == 1 { assert(input[(b + 51)] == 'x'); } else if j == 2 { assert(input[(b + 52)] == 'e'); } else if j == 3 { assert(input[(b + 53)] == 'c'); } else if j == 4 { assert(input[(b + 54)] == 'u'); } else if j == 5 { assert(input[(b + 55)] == 't'); } else if j == 6 { assert(input[(b + 56)] == 'a'); } else if j == 7 { assert(input[(b + 57)] == 'b'); } else if j == 8 { assert(input[(b + 58)] == 'l'); } else if j == 9 { assert(input[(b + 59)] == 'e'); }
    }
    lemma_word(input, sk14, 10);
    assert(input.subrange((b + 50), (b + 60)) =~= seq!['e', 'x', 'e', 'c', 'u', 't', 'a', 'b', 'l', 'e']);
    assert(t14.literal == seq!['e', 'x', 'e', 'c', 'u', 't', 'a', 'b', 'l', 'e'] && c14.pos == (b + 60));
    let acc15 = acc14.push(t14);

    // the closing newline
    assert(c14.pos == b + 60);
    assert(input[b + 60] == '\n');
    lemma_blanks(input, c14, 1);
    assert(lex_tokens(input, c14, acc15) == Ok::<_, crate::leather::lexer::LexError>((acc15, skip_blanks(input, c14)->0)));
    let ts = lex(input, Cursor { pos: 0, line: 1, col: 1 })->Ok_0.0;
    assert(ts == acc15.push(TokenView { token_type: TokenType::End, literal: Seq::empty(), line: (skip_blanks(input, c14)->0).line, col: (skip_blanks(input, c14)->0).col }));
}

/// The `belt.lethr` that `belt new` writes for a project reads back as that
/// project: its name, version `0.1.0`, entry `src/main.unn`, an executable,
/// with the default folders and no other section. This holds for every name
/// that a string literal holds as it is: one without a quote, a backslash, a
/// newline or `'\0'`.
pub proof fn lemma_new_project_reads_back(name: Seq<char>)
    requires
        plain_name(name),
    ensures
        crate::config_of_text(crate::scaffold::lethr_text(name)) == Ok::<ConfigView, crate::ConfigErrorView>(
            new_project_config(name),
        ),
{
    reveal_strlit("[project]\nname = \"");
    reveal_strlit("\"\nversion = \"0.1.0\"\nentry = \"src/main.unn\"\nmode = executable\n");
    assert("[project]\nname = \""@ =~= lethr_head());
    assert("\"\nversion = \"0.1.0\"\nentry = \"src/main.unn\"\nmode = executable\n"@ =~= lethr_tail());
    assert(crate::scaffold::lethr_text(name) == lethr_head() + name + lethr_tail());
    lemma_new_project_lexes(name);
    let ts = lex(lethr_head() + name + lethr_tail(), Cursor { pos: 0, line: 1, col: 1 })->Ok_0.0;
    lemma_new_project_tokens_mean(ts, name);
}

} // verus!
