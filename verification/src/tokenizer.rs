use vstd::prelude::*;
use ahash::{AHashMap, RandomState};

verus! {

/// What `char::is_alphanumeric` of the standard library returns for `c`
/// (the Unicode Alphabetic or Numeric property).
pub uninterp spec fn alphanumeric(c: char) -> bool;

/// An ASCII letter or digit.
pub open spec fn ascii_alphanumeric(c: char) -> bool {
    let n = c as u32;
    ||| 48 <= n <= 57
    ||| 65 <= n <= 90
    ||| 97 <= n <= 122
}

/// `char::is_alphanumeric` of the standard library: whether `c` has the
/// Unicode Alphabetic property or a numeric general category. Among ASCII
/// characters these are exactly the letters and the digits.
#[verifier::external_body]
fn is_alphanumeric(c: char) -> (res: bool)
    ensures
        res == alphanumeric(c),
        (c as u32) < 128 ==> (res <==> ascii_alphanumeric(c)),
{
    c.is_alphanumeric()
}

/// `String::push` of the standard library: appends `c`.
#[verifier::external_body]
fn push_char(s: &mut String, c: char)
    ensures
        final(s)@ == old(s)@.push(c),
{
    s.push(c);
}

/// `c` is an ASCII character.
pub open spec fn is_ascii_char(c: char) -> bool {
    (c as u32) < 128
}

/// The tokenizer's state after some characters: the finished sentences, the
/// words of the current sentence, and the current word.
pub struct SplitState {
    pub sentences: Seq<Seq<Seq<char>>>,
    pub sentence: Seq<Seq<char>>,
    pub word: Seq<char>,
}

/// Ends the current word (if any) and adds it to the current sentence.
pub open spec fn end_word(st: SplitState) -> SplitState {
    if st.word.len() > 0 {
        SplitState { sentences: st.sentences, sentence: st.sentence.push(st.word), word: seq![] }
    } else {
        st
    }
}

/// Ends the current sentence (if any) and adds it to the sentences.
pub open spec fn end_sentence(st: SplitState) -> SplitState {
    if st.sentence.len() > 0 {
        SplitState { sentences: st.sentences.push(st.sentence), sentence: seq![], word: st.word }
    } else {
        st
    }
}

/// One character: a space ends the word; `-` joins the word; another
/// character that is not alphanumeric ends the word and the sentence; an
/// ASCII alphanumeric joins the word; any other alphanumeric ends the word
/// and is a word of its own.
pub open spec fn split_step(st: SplitState, a: char) -> SplitState {
    if a == ' ' {
        end_word(st)
    } else if !alphanumeric(a) {
        if a == '-' {
            SplitState { word: st.word.push('-'), ..st }
        } else {
            end_sentence(end_word(st))
        }
    } else if is_ascii_char(a) {
        SplitState { word: st.word.push(a), ..st }
    } else {
        let st2 = end_word(st);
        SplitState { sentence: st2.sentence.push(seq![a]), ..st2 }
    }
}

/// The state after the characters of `s`.
pub open spec fn split_state(s: Seq<char>) -> SplitState
    decreases s.len(),
{
    if s.len() == 0 {
        SplitState { sentences: seq![], sentence: seq![], word: seq![] }
    } else {
        split_step(split_state(s.drop_last()), s.last())
    }
}

/// The sentences of `s`, each a sequence of words.
pub open spec fn split_spec(s: Seq<char>) -> Seq<Seq<Seq<char>>> {
    end_sentence(end_word(split_state(s))).sentences
}

/// A word is either ASCII letters, digits and `-`, or one alphanumeric
/// character that is not ASCII; `-` alone counts as a word.
pub open spec fn word_ok(w: Seq<char>) -> bool {
    ||| (w.len() == 1 && alphanumeric(w[0]) && !is_ascii_char(w[0]))
    ||| forall|i: int|
        0 <= i < w.len() ==> (#[trigger] w[i] == '-' || (alphanumeric(w[i]) && is_ascii_char(
            w[i],
        )))
}

/// Every word is non-empty and well formed.
pub open spec fn words_ok(ws: Seq<Seq<char>>) -> bool {
    forall|i: int| 0 <= i < ws.len() ==> #[trigger] ws[i].len() > 0 && word_ok(ws[i])
}

/// Every sentence is non-empty and its words are well formed.
pub open spec fn sentences_ok(ss: Seq<Seq<Seq<char>>>) -> bool {
    forall|i: int| 0 <= i < ss.len() ==> #[trigger] ss[i].len() > 0 && words_ok(ss[i])
}

pub open spec fn split_state_ok(st: SplitState) -> bool {
    &&& sentences_ok(st.sentences)
    &&& words_ok(st.sentence)
    &&& forall|i: int|
        0 <= i < st.word.len() ==> (#[trigger] st.word[i] == '-' || (alphanumeric(st.word[i])
            && is_ascii_char(st.word[i])))
}

proof fn lemma_end_word_ok(st: SplitState)
    requires
        split_state_ok(st),
    ensures
        split_state_ok(end_word(st)),
{
    if st.word.len() > 0 {
        let ws = st.sentence.push(st.word);
        assert forall|i: int| 0 <= i < ws.len() implies #[trigger] ws[i].len() > 0 && word_ok(
            ws[i],
        ) by {
            if i < st.sentence.len() {
                assert(ws[i] == st.sentence[i]);
            }
        }
    }
}

proof fn lemma_end_sentence_ok(st: SplitState)
    requires
        split_state_ok(st),
    ensures
        split_state_ok(end_sentence(st)),
{
    if st.sentence.len() > 0 {
        let ss = st.sentences.push(st.sentence);
        assert forall|i: int| 0 <= i < ss.len() implies #[trigger] ss[i].len() > 0 && words_ok(
            ss[i],
        ) by {
            if i < st.sentences.len() {
                assert(ss[i] == st.sentences[i]);
            }
        }
    }
}

/// Every state that the tokenizer passes through is well formed.
proof fn lemma_split_state_ok(s: Seq<char>)
    ensures
        split_state_ok(split_state(s)),
    decreases s.len(),
{
    if s.len() > 0 {
        let st = split_state(s.drop_last());
        lemma_split_state_ok(s.drop_last());
        let a = s.last();
        lemma_end_word_ok(st);
        if a == ' ' {
        } else if !alphanumeric(a) {
            if a != '-' {
                lemma_end_sentence_ok(end_word(st));
            }
        } else if is_ascii_char(a) {
        } else {
            let st2 = end_word(st);
            let ws = st2.sentence.push(seq![a]);
            assert forall|i: int| 0 <= i < ws.len() implies #[trigger] ws[i].len() > 0 && word_ok(
                ws[i],
            ) by {
                if i < st2.sentence.len() {
                    assert(ws[i] == st2.sentence[i]);
                }
            }
        }
    }
}

/// No sentence is empty, no word is empty, and each word is either made of
/// ASCII letters, digits and `-`, or is a single non-ASCII alphanumeric
/// character (such as one Chinese character).
pub proof fn lemma_split_sentences_well_formed(s: Seq<char>)
    ensures
        sentences_ok(split_spec(s)),
{
    lemma_split_state_ok(s);
    lemma_end_word_ok(split_state(s));
    lemma_end_sentence_ok(end_word(split_state(s)));
}

/// The state after the characters of `s`, starting from `st`.
pub open spec fn split_run(st: SplitState, s: Seq<char>) -> SplitState
    decreases s.len(),
{
    if s.len() == 0 {
        st
    } else {
        split_step(split_run(st, s.drop_last()), s.last())
    }
}

/// `st` with the finished sentences `p` put in front of its own.
pub open spec fn after_sentences(p: Seq<Seq<Seq<char>>>, st: SplitState) -> SplitState {
    SplitState { sentences: p + st.sentences, sentence: st.sentence, word: st.word }
}

proof fn lemma_split_run_start(s: Seq<char>)
    ensures
        split_run(SplitState { sentences: seq![], sentence: seq![], word: seq![] }, s)
            == split_state(s),
    decreases s.len(),
{
    if s.len() > 0 {
        lemma_split_run_start(s.drop_last());
    }
}

proof fn lemma_split_run_concat(st: SplitState, a: Seq<char>, b: Seq<char>)
    ensures
        split_run(st, a + b) == split_run(split_run(st, a), b),
    decreases b.len(),
{
    if b.len() == 0 {
        assert(a + b =~= a);
    } else {
        assert((a + b).drop_last() =~= a + b.drop_last());
        assert((a + b).last() == b.last());
        lemma_split_run_concat(st, a, b.drop_last());
    }
}

proof fn lemma_split_step_after(p: Seq<Seq<Seq<char>>>, st: SplitState, c: char)
    ensures
        split_step(after_sentences(p, st), c) == after_sentences(p, split_step(st, c)),
{
    let e = end_word(st);
    assert(end_word(after_sentences(p, st)) == after_sentences(p, e));
    assert((p + e.sentences).push(e.sentence) =~= p + e.sentences.push(e.sentence));
    assert(end_sentence(after_sentences(p, e)) == after_sentences(p, end_sentence(e)));
}

proof fn lemma_split_run_after(p: Seq<Seq<Seq<char>>>, st: SplitState, s: Seq<char>)
    ensures
        split_run(after_sentences(p, st), s) == after_sentences(p, split_run(st, s)),
    decreases s.len(),
{
    if s.len() > 0 {
        lemma_split_run_after(p, st, s.drop_last());
        lemma_split_step_after(p, split_run(st, s.drop_last()), s.last());
    }
}

/// A separator (a character that is neither a space, nor `-`, nor
/// alphanumeric, such as `.`, `,`, `!` or `。`) ends the sentence: the
/// sentences of a text joined at a separator are those of the part before it
/// followed by those of the part after it.
pub proof fn lemma_split_at_separator(a: Seq<char>, c: char, b: Seq<char>)
    requires
        c != ' ',
        c != '-',
        !alphanumeric(c),
    ensures
        split_spec(a + seq![c] + b) == split_spec(a) + split_spec(b),
{
    let empty = SplitState { sentences: seq![], sentence: seq![], word: seq![] };
    let ac = a + seq![c];
    assert(ac.drop_last() =~= a);
    let t = split_state(ac);
    assert(t == end_sentence(end_word(split_state(a))));
    assert(t.sentence.len() == 0 && t.word.len() == 0);
    assert(t.sentence =~= empty.sentence);
    assert(t.word =~= empty.word);
    assert(split_spec(a) + empty.sentences =~= split_spec(a));
    assert(t.sentences == split_spec(a));
    assert(t == after_sentences(split_spec(a), empty));
    lemma_split_run_start(ac + b);
    lemma_split_run_concat(empty, ac, b);
    lemma_split_run_start(ac);
    lemma_split_run_after(split_spec(a), empty, b);
    lemma_split_run_start(b);
    let u = split_state(b);
    assert(split_state(ac + b) == after_sentences(split_spec(a), u));
    let e = end_word(u);
    assert(end_word(after_sentences(split_spec(a), u)) == after_sentences(split_spec(a), e));
    assert((split_spec(a) + e.sentences).push(e.sentence) =~= split_spec(a) + e.sentences.push(e.sentence));
    assert(split_spec(ac + b) =~= split_spec(a) + split_spec(b));
}

/// A character that a split keeps in a word: anything but a space or a
/// separator (a character that is neither `-` nor alphanumeric).
pub open spec fn kept_char(c: char) -> bool {
    c != ' ' && (c == '-' || alphanumeric(c))
}

/// The characters of `s` that a split keeps, in text order.
pub open spec fn kept_chars(s: Seq<char>) -> Seq<char>
    decreases s.len(),
{
    if s.len() == 0 {
        seq![]
    } else if kept_char(s.last()) {
        kept_chars(s.drop_last()).push(s.last())
    } else {
        kept_chars(s.drop_last())
    }
}

/// The words `ws` written one after the other.
pub open spec fn joined(ws: Seq<Seq<char>>) -> Seq<char>
    decreases ws.len(),
{
    if ws.len() == 0 {
        seq![]
    } else {
        joined(ws.drop_last()) + ws.last()
    }
}

/// The words of all sentences `ss` written one after the other.
pub open spec fn joined_sentences(ss: Seq<Seq<Seq<char>>>) -> Seq<char>
    decreases ss.len(),
{
    if ss.len() == 0 {
        seq![]
    } else {
        joined_sentences(ss.drop_last()) + joined(ss.last())
    }
}

/// Everything a state holds, in order: the finished sentences, the current
/// sentence and the current word.
pub open spec fn state_text(st: SplitState) -> Seq<char> {
    joined_sentences(st.sentences) + joined(st.sentence) + st.word
}

proof fn lemma_end_word_text(st: SplitState)
    ensures
        state_text(end_word(st)) == state_text(st),
{
    if st.word.len() > 0 {
        let e = end_word(st);
        assert(e.sentence.drop_last() =~= st.sentence);
        assert(e.word =~= Seq::<char>::empty());
        assert(state_text(e) =~= state_text(st));
    }
}

proof fn lemma_end_sentence_text(st: SplitState)
    ensures
        state_text(end_sentence(st)) == state_text(st),
{
    if st.sentence.len() > 0 {
        let e = end_sentence(st);
        assert(e.sentences.drop_last() =~= st.sentences);
        assert(e.sentence =~= Seq::<Seq<char>>::empty());
        assert(joined(e.sentence) =~= Seq::<char>::empty());
        assert(state_text(e) =~= state_text(st));
    }
}

proof fn lemma_split_state_text(s: Seq<char>)
    ensures
        state_text(split_state(s)) == kept_chars(s),
    decreases s.len(),
{
    if s.len() == 0 {
        assert(state_text(split_state(s)) =~= Seq::<char>::empty());
    } else {
        let st = split_state(s.drop_last());
        let a = s.last();
        lemma_split_state_text(s.drop_last());
        lemma_end_word_text(st);
        if a == ' ' {
        } else if !alphanumeric(a) {
            if a == '-' {
                assert(state_text(split_step(st, a)) =~= state_text(st).push(a));
            } else {
                lemma_end_sentence_text(end_word(st));
            }
        } else if is_ascii_char(a) {
            assert(state_text(split_step(st, a)) =~= state_text(st).push(a));
        } else {
            let st2 = end_word(st);
            let st3 = split_step(st, a);
            assert(st3.sentence.drop_last() =~= st2.sentence);
            assert(st2.word =~= Seq::<char>::empty());
            assert(st3.word =~= Seq::<char>::empty());
            assert(state_text(st3) =~= state_text(st2).push(a));
        }
    }
}

/// Splitting keeps the text in order: the words of all sentences, written one
/// after the other, are the characters of the text other than spaces and
/// separators, in the order in which they occur.
pub proof fn lemma_split_keeps_text_order(s: Seq<char>)
    ensures
        joined_sentences(split_spec(s)) == kept_chars(s),
{
    let st = split_state(s);
    lemma_split_state_text(s);
    lemma_end_word_text(st);
    lemma_end_sentence_text(end_word(st));
    let e = end_sentence(end_word(st));
    if e.sentence.len() == 0 && e.word.len() == 0 {
        assert(joined(e.sentence) =~= Seq::<char>::empty());
        assert(state_text(e) =~= joined_sentences(e.sentences));
    }
}

proof fn lemma_split_state_ascii_run(s: Seq<char>)
    requires
        forall|i: int|
            0 <= i < s.len() ==> #[trigger] s[i] == '-' || (ascii_alphanumeric(s[i])
                && alphanumeric(s[i])),
    ensures
        split_state(s) == (SplitState { sentences: seq![], sentence: seq![], word: s }),
    decreases s.len(),
{
    if s.len() == 0 {
        assert(s =~= Seq::<char>::empty());
    } else {
        let d = s.drop_last();
        assert forall|i: int| 0 <= i < d.len() implies #[trigger] d[i] == '-' || (ascii_alphanumeric(
            d[i],
        ) && alphanumeric(d[i])) by {
            assert(d[i] == s[i]);
        }
        lemma_split_state_ascii_run(d);
        let a = s.last();
        assert(a == s[s.len() - 1]);
        assert(a != ' ');
        assert(is_ascii_char(a)) by {
            if a == '-' {
                assert(('-' as u32) == 45);
            }
        }
        assert(d.push(a) =~= s);
        let st = split_state(d);
        assert(split_step(st, a).word == d.push(a));
        assert(split_step(st, a).sentence == st.sentence);
        assert(split_step(st, a).sentences == st.sentences);
    }
}

/// A run of ASCII letters, digits and `-` with nothing else in it is one
/// word: a non-empty text made only of such characters is one sentence of
/// one word, the text itself. (`is_alphanumeric` holds of every ASCII letter
/// and digit; `split_into_sentences` states it of the characters it reads.)
pub proof fn lemma_split_ascii_run(s: Seq<char>)
    requires
        s.len() > 0,
        forall|i: int|
            0 <= i < s.len() ==> #[trigger] s[i] == '-' || (ascii_alphanumeric(s[i])
                && alphanumeric(s[i])),
    ensures
        split_spec(s) == seq![seq![s]],
{
    lemma_split_state_ascii_run(s);
    assert(split_spec(s) =~= seq![seq![s]]);
}

/// Splits a text into sentences at punctuation, and each sentence into
/// words (runs of ASCII letters and digits, possibly with `-`) and single
/// non-ASCII characters.
pub fn split_into_sentences(text: &str) -> (res: Vec<Vec<String>>)
    ensures
        res.deep_view() == split_spec(text@),
        forall|k: int|
            0 <= k < text@.len() && text@[k] != ' ' && is_ascii_char(#[trigger] text@[k]) ==> (
            alphanumeric(text@[k]) <==> ascii_alphanumeric(text@[k])),
{
    let mut chunks: Vec<Vec<String>> = Vec::new();
    let mut chunk: Vec<String> = Vec::new();
    let mut word = String::new();
    for a in it: text.chars()
        invariant
            it.seq() == text@,
            ({
                let st = split_state(text@.take(it.index()));
                &&& chunks.deep_view() == st.sentences
                &&& chunk.deep_view() == st.sentence
                &&& word@ == st.word
            }),
            forall|k: int|
                0 <= k < it.index() && text@[k] != ' ' && is_ascii_char(#[trigger] text@[k]) ==> (
                alphanumeric(text@[k]) <==> ascii_alphanumeric(text@[k])),
    {
        let ghost prefix = text@.take(it.index());
        proof {
            assert(text@.take(it.index() + 1).drop_last() =~= prefix);
        }
        if a == ' ' {
            if !word.as_str().is_empty() {
                chunk.push(word);
                word = String::new();
                proof {
                    assert(chunk.deep_view() =~= split_state(prefix).sentence.push(
                        split_state(prefix).word,
                    ));
                }
            }
        } else if !is_alphanumeric(a) {
            if a == '-' {
                push_char(&mut word, '-');
            } else {
                if !word.as_str().is_empty() {
                    chunk.push(word);
                    word = String::new();
                    proof {
                        assert(chunk.deep_view() =~= split_state(prefix).sentence.push(
                            split_state(prefix).word,
                        ));
                    }
                }
                if chunk.len() > 0 {
                    let ghost before = chunks.deep_view();
                    chunks.push(chunk);
                    chunk = Vec::new();
                    proof {
                        assert(chunks.deep_view() =~= before.push(end_word(split_state(prefix)).sentence));
                        assert(chunk.deep_view() =~= Seq::<Seq<char>>::empty());
                    }
                }
            }
        } else if (a as u32) < 128 {
            push_char(&mut word, a);
        } else {
            if !word.as_str().is_empty() {
                chunk.push(word);
                word = String::new();
                proof {
                    assert(chunk.deep_view() =~= split_state(prefix).sentence.push(
                        split_state(prefix).word,
                    ));
                }
            }
            let mut single = String::new();
            push_char(&mut single, a);
            let ghost before = chunk.deep_view();
            chunk.push(single);
            proof {
                assert(single@ =~= seq![a]);
                assert(chunk.deep_view() =~= before.push(seq![a]));
            }
        }
        proof {
            assert(word@ =~= split_state(text@.take(it.index() + 1)).word);
        }
    }
    proof {
        assert(text@.take(text@.len() as int) =~= text@);
    }
    if !word.as_str().is_empty() {
        let ghost before = chunk.deep_view();
        chunk.push(word);
        proof {
            assert(chunk.deep_view() =~= before.push(split_state(text@).word));
        }
    }
    if chunk.len() > 0 {
        let ghost before = chunks.deep_view();
        chunks.push(chunk);
        proof {
            assert(chunks.deep_view() =~= before.push(end_word(split_state(text@)).sentence));
        }
    }
    chunks
}

/// The hash map of `ahash`, used as the vocabulary from words to ids.
#[verifier::external_type_specification]
#[verifier::external_body]
#[verifier::reject_recursive_types(K)]
#[verifier::reject_recursive_types(V)]
#[verifier::reject_recursive_types(S)]
pub struct ExAHashMap<K, V, S>(AHashMap<K, V, S>);

/// The hasher state of `ahash` (the map's default hasher).
#[verifier::external_type_specification]
#[verifier::external_body]
pub struct ExRandomState(RandomState);

/// The words and ids held by a vocabulary map (words by their characters).
pub uninterp spec fn vocabulary(m: AHashMap<String, u32>) -> Map<Seq<char>, u32>;

/// `AHashMap::get` of `ahash`: the id stored for `word`, if any.
#[verifier::external_body]
fn vocabulary_get(m: &AHashMap<String, u32>, word: &String) -> (res: Option<u32>)
    ensures
        res == if vocabulary(*m).dom().contains(word@) {
            Some(vocabulary(*m)[word@])
        } else {
            None
        },
{
    m.get(word).copied()
}

/// `AHashMap::insert` of `ahash`: stores `id` for `word`, replacing any
/// earlier id of the word.
#[verifier::external_body]
fn vocabulary_insert(m: &mut AHashMap<String, u32>, word: String, id: u32)
    ensures
        vocabulary(*final(m)) == vocabulary(*old(m)).insert(word@, id),
{
    m.insert(word, id);
}

/// Looks up one word: an old word keeps its id, a new word gets `next`.
/// Returns the new table, the next free id, and the word's id.
pub open spec fn assign_word(table: Map<Seq<char>, u32>, next: int, w: Seq<char>) -> (
    Map<Seq<char>, u32>,
    int,
    u32,
) {
    if table.dom().contains(w) {
        (table, next, table[w])
    } else {
        (table.insert(w, next as u32), next + 1, next as u32)
    }
}

/// `assign_word` over the words of one sentence.
pub open spec fn assign_line(table: Map<Seq<char>, u32>, next: int, words: Seq<Seq<char>>) -> (
    Map<Seq<char>, u32>,
    int,
    Seq<u32>,
)
    decreases words.len(),
{
    if words.len() == 0 {
        (table, next, seq![])
    } else {
        let (t, n, ids) = assign_line(table, next, words.drop_last());
        let (t2, n2, id) = assign_word(t, n, words.last());
        (t2, n2, ids.push(id))
    }
}

/// `assign_word` over the words of all sentences, one id list per sentence.
pub open spec fn assign_lines(
    table: Map<Seq<char>, u32>,
    next: int,
    lines: Seq<Seq<Seq<char>>>,
) -> (Map<Seq<char>, u32>, int, Seq<Seq<u32>>)
    decreases lines.len(),
{
    if lines.len() == 0 {
        (table, next, seq![])
    } else {
        let (t, n, ids) = assign_lines(table, next, lines.drop_last());
        let (t2, n2, line_ids) = assign_line(t, n, lines.last());
        (t2, n2, ids.push(line_ids))
    }
}

proof fn lemma_assign_line_mono(table: Map<Seq<char>, u32>, next: int, words: Seq<Seq<char>>, k: int)
    requires
        0 <= k <= words.len(),
    ensures
        next <= assign_line(table, next, words.take(k)).1 <= assign_line(table, next, words).1,
    decreases words.len(),
{
    if words.len() > 0 {
        if k < words.len() {
            lemma_assign_line_mono(table, next, words.drop_last(), k);
            assert(words.drop_last().take(k) =~= words.take(k));
        } else {
            assert(words.take(k) =~= words);
            lemma_assign_line_mono(table, next, words.drop_last(), 0);
        }
    } else {
        assert(words.take(k) =~= words);
    }
}

proof fn lemma_assign_lines_mono(
    table: Map<Seq<char>, u32>,
    next: int,
    lines: Seq<Seq<Seq<char>>>,
    k: int,
)
    requires
        0 <= k <= lines.len(),
    ensures
        next <= assign_lines(table, next, lines.take(k)).1 <= assign_lines(table, next, lines).1,
    decreases lines.len(),
{
    if lines.len() > 0 {
        let (t, n, ids) = assign_lines(table, next, lines.drop_last());
        lemma_assign_line_mono(t, n, lines.last(), 0);
        if k < lines.len() {
            lemma_assign_lines_mono(table, next, lines.drop_last(), k);
            assert(lines.drop_last().take(k) =~= lines.take(k));
        } else {
            assert(lines.take(k) =~= lines);
            lemma_assign_lines_mono(table, next, lines.drop_last(), 0);
        }
    } else {
        assert(lines.take(k) =~= lines);
    }
}

/// Maps each word of `context` to its id in `id_map`; a word not yet in the
/// map gets the id `*len` (the size of the vocabulary) and `*len` grows by one.
pub fn assign_ids(id_map: &mut AHashMap<String, u32>, len: &mut u32, context: Vec<Vec<String>>) -> (res:
    Vec<Vec<u32>>)
    requires
        assign_lines(vocabulary(*old(id_map)), *old(len) as int, context.deep_view()).1
            <= u32::MAX,
    ensures
        ({
            let (t, n, ids) = assign_lines(vocabulary(*old(id_map)), *old(len) as int, context.deep_view());
            &&& vocabulary(*final(id_map)) == t
            &&& *final(len) == n
            &&& res.deep_view() == ids
        }),
{
    let ghost t0 = vocabulary(*id_map);
    let ghost n0 = *len as int;
    let ghost ctx = context.deep_view();
    let mut id_list: Vec<Vec<u32>> = Vec::new();
    let mut i: usize = 0;
    while i < context.len()
        invariant
            ctx == context.deep_view(),
            0 <= i <= context@.len(),
            assign_lines(t0, n0, ctx).1 <= u32::MAX,
            ({
                let (t, n, ids) = assign_lines(t0, n0, ctx.take(i as int));
                &&& vocabulary(*id_map) == t
                &&& *len == n
                &&& id_list.deep_view() == ids
            }),
        decreases context@.len() - i,
    {
        let ghost prev = ctx.take(i as int);
        let ghost (ti, ni, idsi) = assign_lines(t0, n0, prev);
        let ghost line = ctx[i as int];
        proof {
            assert(ctx.take(i + 1).drop_last() =~= prev);
            assert(ctx.take(i + 1).last() == line);
            lemma_assign_lines_mono(t0, n0, ctx, i + 1);
        }
        let mut ids: Vec<u32> = Vec::new();
        let mut j: usize = 0;
        while j < context[i].len()
            invariant
                ctx == context.deep_view(),
                0 <= i < context@.len(),
                line == ctx[i as int],
                line == context@[i as int].deep_view(),
                0 <= j <= line.len(),
                assign_line(ti, ni, line).1 <= u32::MAX,
                ({
                    let (t, n, line_ids) = assign_line(ti, ni, line.take(j as int));
                    &&& vocabulary(*id_map) == t
                    &&& *len == n
                    &&& ids@ == line_ids
                }),
            decreases line.len() - j,
        {
            let ghost part = line.take(j as int);
            proof {
                assert(line.take(j + 1).drop_last() =~= part);
                assert(line.take(j + 1).last() == line[j as int]);
                lemma_assign_line_mono(ti, ni, line, j + 1);
            }
            let word = context[i][j].clone();
            let next_id = *len;
            let id = match vocabulary_get(id_map, &word) {
                Some(id) => id,
                None => {
                    vocabulary_insert(id_map, word, next_id);
                    *len += 1;
                    next_id
                },
            };
            ids.push(id);
            j += 1;
        }
        proof {
            assert(line.take(j as int) =~= line);
        }
        let ghost before = id_list.deep_view();
        proof {
            assert(ids.deep_view() =~= ids@);
        }
        id_list.push(ids);
        i += 1;
        proof {
            assert(id_list.deep_view() =~= before.push(assign_line(ti, ni, line).2));
        }
    }
    proof {
        assert(ctx.take(i as int) =~= ctx);
    }
    id_list
}

/// The ids of the words of one sentence that the table holds, in order.
pub open spec fn lookup_line(table: Map<Seq<char>, u32>, words: Seq<Seq<char>>) -> Seq<u32>
    decreases words.len(),
{
    if words.len() == 0 {
        seq![]
    } else {
        let r = lookup_line(table, words.drop_last());
        if table.dom().contains(words.last()) {
            r.push(table[words.last()])
        } else {
            r
        }
    }
}

/// `lookup_line` over all sentences, leaving out sentences with no known word.
pub open spec fn lookup_lines(table: Map<Seq<char>, u32>, lines: Seq<Seq<Seq<char>>>) -> Seq<
    Seq<u32>,
>
    decreases lines.len(),
{
    if lines.len() == 0 {
        seq![]
    } else {
        let r = lookup_lines(table, lines.drop_last());
        let ids = lookup_line(table, lines.last());
        if ids.len() > 0 {
            r.push(ids)
        } else {
            r
        }
    }
}

/// Maps each word of `context` that `id_map` knows to its id; unknown words
/// are skipped, and a sentence with no known word yields no list.
pub fn lookup_ids(id_map: &AHashMap<String, u32>, context: Vec<Vec<String>>) -> (res: Vec<Vec<u32>>)
    ensures
        res.deep_view() == lookup_lines(vocabulary(*id_map), context.deep_view()),
{
    let ghost t = vocabulary(*id_map);
    let ghost ctx = context.deep_view();
    let mut id_list: Vec<Vec<u32>> = Vec::new();
    let mut ids: Vec<u32> = Vec::new();
    let mut i: usize = 0;
    while i < context.len()
        invariant
            ctx == context.deep_view(),
            t == vocabulary(*id_map),
            0 <= i <= context@.len(),
            id_list.deep_view() == lookup_lines(t, ctx.take(i as int)),
            ids@ == Seq::<u32>::empty(),
        decreases context@.len() - i,
    {
        let ghost prev = ctx.take(i as int);
        let ghost line = ctx[i as int];
        proof {
            assert(ctx.take(i + 1).drop_last() =~= prev);
            assert(ctx.take(i + 1).last() == line);
        }
        let mut j: usize = 0;
        while j < context[i].len()
            invariant
                ctx == context.deep_view(),
                t == vocabulary(*id_map),
                0 <= i < context@.len(),
                line == context@[i as int].deep_view(),
                0 <= j <= line.len(),
                ids@ == lookup_line(t, line.take(j as int)),
            decreases line.len() - j,
        {
            proof {
                assert(line.take(j + 1).drop_last() =~= line.take(j as int));
                assert(line.take(j + 1).last() == line[j as int]);
            }
            if let Some(id) = vocabulary_get(id_map, &context[i][j]) {
                ids.push(id);
            }
            j += 1;
        }
        proof {
            assert(line.take(j as int) =~= line);
        }
        if ids.len() > 0 {
            let ghost before = id_list.deep_view();
            proof {
                assert(ids.deep_view() =~= ids@);
            }
            id_list.push(ids);
            ids = Vec::new();
            proof {
                assert(id_list.deep_view() =~= before.push(lookup_line(t, line)));
            }
        }
        i += 1;
    }
    proof {
        assert(ctx.take(i as int) =~= ctx);
    }
    id_list
}

/// The n-grams of one sentence of ids: one 1-gram for a single id, else
/// every 2-gram, then (from three ids on) every 3-gram, in order.
pub open spec fn line_ngrams(line: Seq<u32>) -> Seq<Seq<u32>> {
    if line.len() == 0 {
        seq![]
    } else if line.len() == 1 {
        seq![seq![line[0]]]
    } else {
        Seq::new((line.len() - 1) as nat, |i: int| seq![line[i], line[i + 1]]) + if line.len()
            > 2 {
            Seq::new((line.len() - 2) as nat, |i: int| seq![line[i], line[i + 1], line[i + 2]])
        } else {
            Seq::<Seq<u32>>::empty()
        }
    }
}

/// The n-grams of all sentences, one sentence after the other.
pub open spec fn ngrams_spec(context: Seq<Seq<u32>>) -> Seq<Seq<u32>>
    decreases context.len(),
{
    if context.len() == 0 {
        seq![]
    } else {
        ngrams_spec(context.drop_last()) + line_ngrams(context.last())
    }
}

/// Produces the 2-grams and 3-grams of each sentence of ids (a single id
/// gives its 1-gram; two ids give one 2-gram).
pub fn generate_ngrams(context: Vec<Vec<u32>>) -> (res: Vec<Vec<u32>>)
    ensures
        res.deep_view() == ngrams_spec(context.deep_view()),
{
    let ghost ctx = context.deep_view();
    let mut list: Vec<Vec<u32>> = Vec::new();
    let mut ids: Vec<u32> = Vec::with_capacity(3);
    let mut k: usize = 0;
    while k < context.len()
        invariant
            ctx == context.deep_view(),
            0 <= k <= context@.len(),
            list.deep_view() == ngrams_spec(ctx.take(k as int)),
            ids@ == Seq::<u32>::empty(),
        decreases context@.len() - k,
    {
        let ghost line = ctx[k as int];
        let ghost base = list.deep_view();
        proof {
            assert(ctx.take(k + 1).drop_last() =~= ctx.take(k as int));
            assert(ctx.take(k + 1).last() == line);
            assert(line == context@[k as int]@);
        }
        let len = context[k].len();
        if len == 1 {
            ids.push(context[k][0]);
            proof {
                assert(ids.deep_view() =~= seq![line[0]]);
            }
            list.push(ids);
            ids = Vec::with_capacity(3);
            proof {
                assert(list.deep_view() =~= base + line_ngrams(line));
            }
        } else if len > 1 {
            let mut w: usize = 0;
            while w + 1 < len
                invariant
                    k < context@.len(),
                    line == context@[k as int]@,
                    len == line.len(),
                    len > 1,
                    w + 1 <= len,
                    ids@ == Seq::<u32>::empty(),
                    list.deep_view() == base + Seq::new(
                        w as nat,
                        |i: int| seq![line[i], line[i + 1]],
                    ),
                decreases len - w,
            {
                let ghost before = list.deep_view();
                let ghost wo = w as int;
                ids.push(context[k][w]);
                ids.push(context[k][w + 1]);
                proof {
                    assert(ids.deep_view() =~= seq![line[w as int], line[w + 1]]);
                }
                list.push(ids);
                proof {
                    assert(list.deep_view() =~= before.push(seq![line[wo], line[wo + 1]]));
                }
                ids = Vec::with_capacity(3);
                w += 1;
                proof {
                    assert(list.deep_view() =~= base + Seq::new(
                        w as nat,
                        |i: int| seq![line[i], line[i + 1]],
                    ));
                }
            }
            let ghost base2 = list.deep_view();
            if len > 2 {
                let mut w: usize = 0;
                while w + 2 < len
                    invariant
                        k < context@.len(),
                        line == context@[k as int]@,
                        len == line.len(),
                        len > 2,
                        w + 2 <= len,
                        ids@ == Seq::<u32>::empty(),
                        list.deep_view() == base2 + Seq::new(
                            w as nat,
                            |i: int| seq![line[i], line[i + 1], line[i + 2]],
                        ),
                    decreases len - w,
                {
                    let ghost before = list.deep_view();
                    let ghost wo = w as int;
                    ids.push(context[k][w]);
                    ids.push(context[k][w + 1]);
                    ids.push(context[k][w + 2]);
                    proof {
                        assert(ids.deep_view() =~= seq![line[w as int], line[w + 1], line[w + 2]]);
                    }
                    list.push(ids);
                    proof {
                        assert(list.deep_view() =~= before.push(
                            seq![line[wo], line[wo + 1], line[wo + 2]],
                        ));
                    }
                    ids = Vec::with_capacity(3);
                    w += 1;
                    proof {
                        assert(list.deep_view() =~= base2 + Seq::new(
                            w as nat,
                            |i: int| seq![line[i], line[i + 1], line[i + 2]],
                        ));
                    }
                }
            }
            proof {
                assert(list.deep_view() =~= base + line_ngrams(line));
            }
        } else {
            proof {
                assert(list.deep_view() =~= base + line_ngrams(line));
            }
        }
        k += 1;
    }
    proof {
        assert(ctx.take(k as int) =~= ctx);
    }
    list
}

/// A vocabulary of `n` words whose ids are exactly `0..n`, one per word.
pub open spec fn table_ok(t: Map<Seq<char>, u32>, n: int) -> bool {
    &&& t.dom().finite()
    &&& t.dom().len() == n
    &&& forall|w: Seq<char>| #[trigger] t.dom().contains(w) ==> t[w] < n
    &&& forall|w1: Seq<char>, w2: Seq<char>|
        #[trigger] t.dom().contains(w1) && #[trigger] t.dom().contains(w2) && w1 != w2 ==> t[w1]
            != t[w2]
}

/// `t2` keeps every word of `t` with its id.
pub open spec fn extends(t2: Map<Seq<char>, u32>, t: Map<Seq<char>, u32>) -> bool {
    forall|w: Seq<char>| #[trigger] t.dom().contains(w) ==> t2.dom().contains(w) && t2[w] == t[w]
}

proof fn lemma_assign_word_ok(t: Map<Seq<char>, u32>, n: int, w: Seq<char>)
    requires
        table_ok(t, n),
        assign_word(t, n, w).1 <= u32::MAX,
    ensures
        ({
            let (t2, n2, id) = assign_word(t, n, w);
            &&& table_ok(t2, n2)
            &&& extends(t2, t)
            &&& t2.dom().contains(w)
            &&& id == t2[w]
        }),
{
    if !t.dom().contains(w) {
        let t2 = t.insert(w, n as u32);
        assert(t2.dom() =~= t.dom().insert(w));
        assert forall|w1: Seq<char>, w2: Seq<char>|
            #[trigger] t2.dom().contains(w1) && #[trigger] t2.dom().contains(w2) && w1 != w2
            implies t2[w1] != t2[w2] by {
            if w1 != w && w2 != w {
                assert(t.dom().contains(w1) && t.dom().contains(w2));
            } else if w1 == w {
                assert(t.dom().contains(w2));
            } else {
                assert(t.dom().contains(w1));
            }
        }
    }
}

proof fn lemma_assign_line_ok(t: Map<Seq<char>, u32>, n: int, words: Seq<Seq<char>>)
    requires
        table_ok(t, n),
        assign_line(t, n, words).1 <= u32::MAX,
    ensures
        ({
            let (t2, n2, ids) = assign_line(t, n, words);
            &&& table_ok(t2, n2)
            &&& extends(t2, t)
            &&& ids.len() == words.len()
            &&& forall|j: int|
                0 <= j < words.len() ==> t2.dom().contains(#[trigger] words[j]) && ids[j]
                    == t2[words[j]]
        }),
    decreases words.len(),
{
    if words.len() > 0 {
        let (t1, n1, ids1) = assign_line(t, n, words.drop_last());
        lemma_assign_line_mono(t, n, words, words.len() - 1);
        assert(words.take(words.len() - 1) =~= words.drop_last());
        lemma_assign_line_ok(t, n, words.drop_last());
        lemma_assign_word_ok(t1, n1, words.last());
        let (t2, n2, ids) = assign_line(t, n, words);
        assert forall|j: int| 0 <= j < words.len() implies t2.dom().contains(#[trigger] words[j])
            && ids[j] == t2[words[j]] by {
            if j < words.len() - 1 {
                assert(words.drop_last()[j] == words[j]);
            }
        }
    }
}

/// Assigning ids keeps a vocabulary whose ids are `0..len`, one per word,
/// and keeps every known word with its id.
pub proof fn lemma_assign_lines_ok(t: Map<Seq<char>, u32>, n: int, lines: Seq<Seq<Seq<char>>>)
    requires
        table_ok(t, n),
        assign_lines(t, n, lines).1 <= u32::MAX,
    ensures
        table_ok(assign_lines(t, n, lines).0, assign_lines(t, n, lines).1),
        extends(assign_lines(t, n, lines).0, t),
        assign_lines(t, n, lines).2.len() == lines.len(),
    decreases lines.len(),
{
    if lines.len() > 0 {
        let dl = lines.drop_last();
        let r1 = assign_lines(t, n, dl);
        lemma_assign_lines_mono(t, n, lines, lines.len() - 1);
        assert(lines.take(lines.len() - 1) =~= dl);
        lemma_assign_lines_ok(t, n, dl);
        lemma_assign_line_ok(r1.0, r1.1, lines.last());
        let t2 = assign_lines(t, n, lines).0;
        assert forall|w: Seq<char>| #[trigger] t.dom().contains(w) implies t2.dom().contains(w)
            && t2[w] == t[w] by {
            assert(r1.0.dom().contains(w));
        }
    }
}

/// Every word of the text gets the vocabulary's id of that word: the id at
/// place `j` of sentence `i` is the final vocabulary's id of word `j` of
/// sentence `i`.
pub proof fn lemma_assign_ids_consistent(
    t: Map<Seq<char>, u32>,
    n: int,
    lines: Seq<Seq<Seq<char>>>,
    i: int,
    j: int,
)
    requires
        table_ok(t, n),
        assign_lines(t, n, lines).1 <= u32::MAX,
        0 <= i < lines.len(),
        0 <= j < lines[i].len(),
    ensures
        assign_lines(t, n, lines).2[i].len() == lines[i].len(),
        assign_lines(t, n, lines).0.dom().contains(lines[i][j]),
        assign_lines(t, n, lines).2[i][j] == assign_lines(t, n, lines).0[lines[i][j]],
    decreases lines.len(),
{
    let dl = lines.drop_last();
    let r1 = assign_lines(t, n, dl);
    lemma_assign_lines_mono(t, n, lines, lines.len() - 1);
    assert(lines.take(lines.len() - 1) =~= dl);
    lemma_assign_lines_ok(t, n, dl);
    lemma_assign_line_ok(r1.0, r1.1, lines.last());
    if i < lines.len() - 1 {
        assert(dl[i] == lines[i]);
        lemma_assign_ids_consistent(t, n, dl, i, j);
        assert(r1.0.dom().contains(lines[i][j]));
    } else {
        assert(lines.last()[j] == lines[i][j]);
    }
}

/// `ids` are the ids that `table` holds for `words`, one for each word.
pub open spec fn recorded(table: Map<Seq<char>, u32>, words: Seq<Seq<char>>, ids: Seq<u32>) -> bool {
    &&& ids.len() == words.len()
    &&& forall|j: int|
        0 <= j < words.len() ==> table.dom().contains(#[trigger] words[j]) && ids[j] == table[words[j]]
}

/// The sentences of `lines` that are not empty, in order.
pub open spec fn nonempty_lines(lines: Seq<Seq<u32>>) -> Seq<Seq<u32>>
    decreases lines.len(),
{
    if lines.len() == 0 {
        seq![]
    } else if lines.last().len() > 0 {
        nonempty_lines(lines.drop_last()).push(lines.last())
    } else {
        nonempty_lines(lines.drop_last())
    }
}

proof fn lemma_recorded_extends(
    t1: Map<Seq<char>, u32>,
    t2: Map<Seq<char>, u32>,
    words: Seq<Seq<char>>,
    ids: Seq<u32>,
)
    requires
        recorded(t1, words, ids),
        extends(t2, t1),
    ensures
        recorded(t2, words, ids),
{
    assert forall|j: int| 0 <= j < words.len() implies t2.dom().contains(#[trigger] words[j])
        && ids[j] == t2[words[j]] by {
        assert(t1.dom().contains(words[j]));
    }
}

proof fn lemma_assign_line_recorded(t: Map<Seq<char>, u32>, n: int, words: Seq<Seq<char>>)
    ensures
        extends(assign_line(t, n, words).0, t),
        recorded(assign_line(t, n, words).0, words, assign_line(t, n, words).2),
    decreases words.len(),
{
    if words.len() > 0 {
        let (t1, n1, ids1) = assign_line(t, n, words.drop_last());
        lemma_assign_line_recorded(t, n, words.drop_last());
        let (t2, n2, id) = assign_word(t1, n1, words.last());
        assert(extends(t2, t1));
        assert(extends(t2, t)) by {
            assert forall|w: Seq<char>| #[trigger] t.dom().contains(w) implies t2.dom().contains(w)
                && t2[w] == t[w] by {
                assert(t1.dom().contains(w));
            }
        }
        lemma_recorded_extends(t1, t2, words.drop_last(), ids1);
        let ids = ids1.push(id);
        assert forall|j: int| 0 <= j < words.len() implies t2.dom().contains(#[trigger] words[j])
            && ids[j] == t2[words[j]] by {
            if j < words.len() - 1 {
                assert(words.drop_last()[j] == words[j]);
            }
        }
    }
}

proof fn lemma_assign_lines_recorded(t: Map<Seq<char>, u32>, n: int, lines: Seq<Seq<Seq<char>>>)
    ensures
        extends(assign_lines(t, n, lines).0, t),
        assign_lines(t, n, lines).2.len() == lines.len(),
        forall|i: int|
            0 <= i < lines.len() ==> recorded(
                assign_lines(t, n, lines).0,
                #[trigger] lines[i],
                assign_lines(t, n, lines).2[i],
            ),
    decreases lines.len(),
{
    if lines.len() > 0 {
        let (t1, n1, ids1) = assign_lines(t, n, lines.drop_last());
        lemma_assign_lines_recorded(t, n, lines.drop_last());
        let (t2, n2, line_ids) = assign_line(t1, n1, lines.last());
        lemma_assign_line_recorded(t1, n1, lines.last());
        assert(extends(t2, t)) by {
            assert forall|w: Seq<char>| #[trigger] t.dom().contains(w) implies t2.dom().contains(w)
                && t2[w] == t[w] by {
                assert(t1.dom().contains(w));
            }
        }
        let idss = ids1.push(line_ids);
        assert forall|i: int| 0 <= i < lines.len() implies recorded(t2, #[trigger] lines[i], idss[i]) by {
            if i < lines.len() - 1 {
                assert(lines.drop_last()[i] == lines[i]);
                lemma_recorded_extends(t1, t2, lines[i], ids1[i]);
            }
        }
    }
}

proof fn lemma_lookup_line_recorded(table: Map<Seq<char>, u32>, words: Seq<Seq<char>>, ids: Seq<u32>)
    requires
        recorded(table, words, ids),
    ensures
        lookup_line(table, words) == ids,
    decreases words.len(),
{
    if words.len() > 0 {
        assert forall|j: int| 0 <= j < words.len() - 1 implies table.dom().contains(
            #[trigger] words.drop_last()[j],
        ) && ids.drop_last()[j] == table[words.drop_last()[j]] by {
            assert(words.drop_last()[j] == words[j]);
        }
        lemma_lookup_line_recorded(table, words.drop_last(), ids.drop_last());
        assert(table.dom().contains(words[words.len() - 1]));
        assert(ids =~= ids.drop_last().push(ids.last()));
    } else {
        assert(ids =~= Seq::<u32>::empty());
    }
}

proof fn lemma_lookup_lines_recorded(
    table: Map<Seq<char>, u32>,
    lines: Seq<Seq<Seq<char>>>,
    idss: Seq<Seq<u32>>,
)
    requires
        idss.len() == lines.len(),
        forall|i: int| 0 <= i < lines.len() ==> recorded(table, #[trigger] lines[i], idss[i]),
    ensures
        lookup_lines(table, lines) == nonempty_lines(idss),
    decreases lines.len(),
{
    if lines.len() > 0 {
        assert forall|i: int| 0 <= i < lines.len() - 1 implies recorded(
            table,
            #[trigger] lines.drop_last()[i],
            idss.drop_last()[i],
        ) by {
            assert(lines.drop_last()[i] == lines[i]);
        }
        lemma_lookup_lines_recorded(table, lines.drop_last(), idss.drop_last());
        assert(recorded(table, lines[lines.len() - 1], idss[lines.len() - 1]));
        lemma_lookup_line_recorded(table, lines.last(), idss.last());
    }
}

/// Looking up the words of a text right after assigning their ids gives the
/// assigned ids back, without the sentences that had no word: every word is
/// then in the vocabulary with the id it was given.
pub proof fn lemma_lookup_after_assign(t: Map<Seq<char>, u32>, n: int, lines: Seq<Seq<Seq<char>>>)
    ensures
        lookup_lines(assign_lines(t, n, lines).0, lines) == nonempty_lines(
            assign_lines(t, n, lines).2,
        ),
{
    lemma_assign_lines_recorded(t, n, lines);
    lemma_lookup_lines_recorded(assign_lines(t, n, lines).0, lines, assign_lines(t, n, lines).2);
}

proof fn lemma_lookup_line_known(table: Map<Seq<char>, u32>, words: Seq<Seq<char>>)
    ensures
        lookup_line(table, words) == words.filter(|w: Seq<char>| table.dom().contains(w)).map_values(
            |w: Seq<char>| table[w],
        ),
    decreases words.len(),
{
    reveal(Seq::filter);
    if words.len() > 0 {
        lemma_lookup_line_known(table, words.drop_last());
        let fd = words.drop_last().filter(|w: Seq<char>| table.dom().contains(w));
        let f = words.filter(|w: Seq<char>| table.dom().contains(w));
        if table.dom().contains(words.last()) {
            assert(f == fd.push(words.last()));
            assert(f.map_values(|w: Seq<char>| table[w]) =~= fd.map_values(|w: Seq<char>| table[w]).push(
                table[words.last()],
            ));
        } else {
            assert(f == fd);
        }
    } else {
        assert(words.filter(|w: Seq<char>| table.dom().contains(w)).map_values(|w: Seq<char>| table[w])
            =~= Seq::<u32>::empty());
    }
}

/// Looking up skips unknown words and nothing else: the ids of a sentence are
/// the vocabulary's ids of its known words, in order, and a sentence is left
/// out exactly when none of its words is known.
pub proof fn lemma_lookup_skips_only_unknown(table: Map<Seq<char>, u32>, lines: Seq<Seq<Seq<char>>>)
    ensures
        lookup_lines(table, lines) == lines.map_values(
            |l: Seq<Seq<char>>|
                l.filter(|w: Seq<char>| table.dom().contains(w)).map_values(|w: Seq<char>| table[w]),
        ).filter(|ids: Seq<u32>| ids.len() > 0),
    decreases lines.len(),
{
    reveal(Seq::filter);
    let g = |l: Seq<Seq<char>>|
        l.filter(|w: Seq<char>| table.dom().contains(w)).map_values(|w: Seq<char>| table[w]);
    if lines.len() > 0 {
        lemma_lookup_skips_only_unknown(table, lines.drop_last());
        lemma_lookup_line_known(table, lines.last());
        let m = lines.map_values(g);
        assert(m.drop_last() =~= lines.drop_last().map_values(g));
        assert(m.last() == g(lines.last()));
    } else {
        assert(lines.map_values(g) =~= Seq::<Seq<u32>>::empty());
    }
}

/// No sentence of the lookup result is empty, and every id in it is the
/// vocabulary's id of some word.
pub proof fn lemma_lookup_ids_nonempty(t: Map<Seq<char>, u32>, lines: Seq<Seq<Seq<char>>>)
    ensures
        forall|i: int|
            0 <= i < lookup_lines(t, lines).len() ==> #[trigger] lookup_lines(t, lines)[i].len() > 0,
    decreases lines.len(),
{
    if lines.len() > 0 {
        lemma_lookup_ids_nonempty(t, lines.drop_last());
        let r = lookup_lines(t, lines.drop_last());
        let out = lookup_lines(t, lines);
        assert forall|i: int| 0 <= i < out.len() implies #[trigger] out[i].len() > 0 by {
            if i < r.len() {
                assert(out[i] == r[i]);
            }
        }
    }
}

/// The number of n-grams of one sentence of `n` ids.
pub open spec fn ngram_count(n: int) -> int {
    if n == 0 {
        0
    } else if n <= 2 {
        1
    } else {
        (n - 1) + (n - 2)
    }
}

/// `ngram_count` summed over the sentences.
pub open spec fn ngram_total(context: Seq<Seq<u32>>) -> int
    decreases context.len(),
{
    if context.len() == 0 {
        0
    } else {
        ngram_total(context.drop_last()) + ngram_count(context.last().len() as int)
    }
}

/// Every sentence of `n` ids yields `n - 1` 2-grams and `n - 2` 3-grams (one
/// n-gram for one or two ids).
pub proof fn lemma_ngram_count(context: Seq<Seq<u32>>)
    ensures
        ngrams_spec(context).len() == ngram_total(context),
    decreases context.len(),
{
    if context.len() > 0 {
        lemma_ngram_count(context.drop_last());
    }
}

proof fn lemma_ngrams_prefix(context: Seq<Seq<u32>>, j: int)
    requires
        0 <= j <= context.len(),
    ensures
        ngrams_spec(context.take(j)).len() <= ngrams_spec(context).len(),
        forall|x: int|
            0 <= x < ngrams_spec(context.take(j)).len() ==> #[trigger] ngrams_spec(context)[x]
                == ngrams_spec(context.take(j))[x],
    decreases context.len(),
{
    if j == context.len() {
        assert(context.take(j) =~= context);
    } else {
        let d = context.drop_last();
        assert(d.take(j) =~= context.take(j));
        lemma_ngrams_prefix(d, j);
    }
}

/// The n-grams come sentence by sentence and window by window: those of
/// sentence `k` start right after the n-grams of the sentences before it
/// (`ngram_total` of them); a sentence of one id gives that id alone; a longer
/// sentence of `n` ids gives first, for each position `i`, the window of two
/// ids starting at `i`, then, from three ids on, the window of three ids
/// starting at each position `i`.
pub proof fn lemma_ngram_windows(context: Seq<Seq<u32>>, k: int)
    requires
        0 <= k < context.len(),
    ensures
        ({
            let line = context[k];
            let n = line.len() as int;
            let off = ngram_total(context.take(k));
            let out = ngrams_spec(context);
            &&& out.len() == ngram_total(context)
            &&& off + ngram_count(n) <= out.len()
            &&& n == 1 ==> out[off] == line
            &&& forall|i: int| 0 <= i < n - 1 ==> #[trigger] out[off + i] == line.subrange(i, i + 2)
            &&& forall|i: int|
                0 <= i < n - 2 ==> #[trigger] out[off + (n - 1) + i] == line.subrange(i, i + 3)
        }),
{
    let line = context[k];
    let n = line.len() as int;
    let pre = context.take(k);
    let upto = context.take(k + 1);
    let out = ngrams_spec(context);
    lemma_ngram_count(context);
    lemma_ngram_count(pre);
    lemma_ngrams_prefix(context, k + 1);
    assert(upto.drop_last() =~= pre);
    assert(upto.last() == line);
    let off = ngram_total(pre);
    let ln = line_ngrams(line);
    assert(ngrams_spec(upto) == ngrams_spec(pre) + ln);
    assert(ln.len() == ngram_count(n));
    assert forall|x: int| 0 <= x < ln.len() implies out[off + x] == #[trigger] ln[x] by {
        assert(ngrams_spec(upto)[off + x] == ln[x]);
    }
    if n == 1 {
        assert(ln[0] =~= line);
    }
    assert forall|i: int| 0 <= i < n - 1 implies #[trigger] out[off + i] == line.subrange(i, i + 2) by {
        assert(ln[i] =~= line.subrange(i, i + 2));
    }
    assert forall|i: int| 0 <= i < n - 2 implies #[trigger] out[off + (n - 1) + i] == line.subrange(
        i,
        i + 3,
    ) by {
        assert(ln[(n - 1) + i] =~= line.subrange(i, i + 3));
    }
}

} // verus!
