//! The tags of an image: how the tags that the tag service returns are told
//! apart, and whether they add anything to the tags that the image has.

use vstd::prelude::*;

verus! {

/// The strings of a vector, each as its sequence of characters.
pub open spec fn strings_view(v: Seq<String>) -> Seq<Seq<char>> {
    Seq::new(v.len(), |i: int| v[i]@)
}

/// The tags in the text of a tag list. The tags stand between single spaces,
/// and double quotes are left out. Two spaces in a row have an empty tag
/// between them, and the empty text holds one empty tag.
pub open spec fn tag_pieces(s: Seq<char>) -> Seq<Seq<char>>
    decreases s.len(),
{
    if s.len() == 0 {
        seq![Seq::<char>::empty()]
    } else {
        let before = tag_pieces(s.drop_last());
        let c = s.last();
        if c == ' ' {
            before.push(Seq::<char>::empty())
        } else if c == '"' {
            before
        } else {
            before.drop_last().push(before.last().push(c))
        }
    }
}

/// The text without its double quotes.
pub open spec fn without_quotes(s: Seq<char>) -> Seq<char>
    decreases s.len(),
{
    if s.len() == 0 {
        Seq::<char>::empty()
    } else if s.last() == '"' {
        without_quotes(s.drop_last())
    } else {
        without_quotes(s.drop_last()).push(s.last())
    }
}

/// The pieces written one after the other with a space between each two.
pub open spec fn joined(p: Seq<Seq<char>>) -> Seq<char>
    decreases p.len(),
{
    if p.len() == 0 {
        Seq::<char>::empty()
    } else if p.len() == 1 {
        p[0]
    } else {
        joined(p.drop_last()).push(' ') + p.last()
    }
}

/// The tags of a text are what stands between its spaces once the quotes are
/// gone: there is at least one, none holds a space or a quote, and joined by
/// spaces they give the text without quotes back.
pub proof fn lemma_tag_pieces_split(s: Seq<char>)
    ensures
        tag_pieces(s).len() >= 1,
        joined(tag_pieces(s)) == without_quotes(s),
        forall|i: int, j: int|
            0 <= i < tag_pieces(s).len() && 0 <= j < tag_pieces(s)[i].len() ==> {
                &&& #[trigger] tag_pieces(s)[i][j] != ' '
                &&& tag_pieces(s)[i][j] != '"'
            },
    decreases s.len(),
{
    if s.len() > 0 {
        let before = tag_pieces(s.drop_last());
        let c = s.last();
        lemma_tag_pieces_split(s.drop_last());
        let now = tag_pieces(s);
        if c == ' ' {
            assert(now.drop_last() =~= before);
            assert(joined(now) =~= joined(before).push(' '));
        } else if c == '"' {
        } else {
            let grown = before.last().push(c);
            assert(now.last() == grown);
            if before.len() == 1 {
                assert(now =~= seq![grown]);
                assert(joined(before) == before[0]);
            } else {
                assert(now.drop_last() =~= before.drop_last());
                assert(joined(now) =~= joined(before.drop_last()).push(' ') + grown);
                assert(joined(before) == joined(before.drop_last()).push(' ') + before.last());
                assert(joined(now) =~= joined(before).push(c));
            }
            assert forall|i: int, j: int|
                0 <= i < now.len() && 0 <= j < now[i].len() implies #[trigger] now[i][j] != ' '
                && now[i][j] != '"' by {
                if i < now.len() - 1 {
                    assert(now[i] == before[i]);
                } else if j < before.last().len() {
                    assert(now[i][j] == before[i][j]);
                }
            }
        }
    }
}

/// Appends a character to a string with `String::push`, which the standard
/// library documents to do just that. Taken on trust.
#[verifier::external_body]
fn push_char(s: &mut String, c: char)
    ensures
        final(s)@ == old(s)@.push(c),
{
    s.push(c);
}

/// Tells the tags in the text of a tag list apart.
pub fn split_tags(text: &str) -> (r: Vec<String>)
    ensures
        strings_view(r@) == tag_pieces(text@),
{
    let mut out: Vec<String> = Vec::new();
    let mut cur = String::new();
    let ghost whole = text@;
    proof {
        assert(whole.take(0) =~= Seq::<char>::empty());
        assert(strings_view(out@).push(cur@) =~= tag_pieces(whole.take(0)));
    }
    for c in it: text.chars()
        invariant
            it.seq() == whole,
            whole == text@,
            strings_view(out@).push(cur@) == tag_pieces(whole.take(it.index() as int)),
    {
        let ghost i = it.index() as int;
        let ghost before = tag_pieces(whole.take(i));
        proof {
            assert(whole.take(i + 1).drop_last() =~= whole.take(i));
            assert(whole.take(i + 1).last() == c);
            assert(before.last() == cur@);
            assert(before.drop_last() =~= strings_view(out@));
        }
        if c == ' ' {
            out.push(cur);
            cur = String::new();
            proof {
                assert(strings_view(out@) =~= before);
            }
        } else if c == '"' {
        } else {
            push_char(&mut cur, c);
        }
        proof {
            assert(strings_view(out@).push(cur@) =~= tag_pieces(whole.take(i + 1)));
        }
    }
    proof {
        assert(whole.take(whole.len() as int) =~= whole);
    }
    let ghost last = cur@;
    let ghost front = strings_view(out@);
    out.push(cur);
    proof {
        assert(strings_view(out@) =~= front.push(last));
    }
    out
}

/// Every tag of `remote` is among the tags of `local`.
pub open spec fn covers(local: Seq<Seq<char>>, remote: Seq<Seq<char>>) -> bool {
    forall|i: int| 0 <= i < remote.len() ==> local.contains(#[trigger] remote[i])
}

/// The tags of `remote` that `local` lacks, each once, in the order in which
/// `remote` first names them.
pub open spec fn added_tags(local: Seq<Seq<char>>, remote: Seq<Seq<char>>) -> Seq<Seq<char>>
    decreases remote.len(),
{
    if remote.len() == 0 {
        Seq::<Seq<char>>::empty()
    } else {
        let before = added_tags(local, remote.drop_last());
        let t = remote.last();
        if local.contains(t) || before.contains(t) {
            before
        } else {
            before.push(t)
        }
    }
}

/// The tags to write to an image that has the tags `local` when the service
/// reports the tags `remote`: nothing is written if `local` covers `remote`;
/// otherwise the tags of `local` are written, followed by those that are new.
pub open spec fn merged_tags(
    local: Seq<Seq<char>>,
    remote: Seq<Seq<char>>,
) -> Option<Seq<Seq<char>>> {
    if covers(local, remote) {
        None
    } else {
        Some(local + added_tags(local, remote))
    }
}

/// A tag is added exactly if `remote` names it and `local` lacks it. So
/// nothing is added if and only if `local` covers `remote`, and what is
/// written holds the tags of both and no others.
pub proof fn lemma_added_tags(local: Seq<Seq<char>>, remote: Seq<Seq<char>>)
    ensures
        forall|t: Seq<char>| #[trigger]
            added_tags(local, remote).contains(t) <==> remote.contains(t) && !local.contains(t),
        added_tags(local, remote).len() == 0 <==> covers(local, remote),
        forall|t: Seq<char>| #[trigger]
            (local + added_tags(local, remote)).contains(t) <==> local.contains(t)
                || remote.contains(t),
    decreases remote.len(),
{
    let now = added_tags(local, remote);
    if remote.len() > 0 {
        let front = remote.drop_last();
        let before = added_tags(local, front);
        let last = remote.last();
        lemma_added_tags(local, front);
        assert forall|t: Seq<char>| #[trigger]
            now.contains(t) <==> remote.contains(t) && !local.contains(t) by {
            if now.contains(t) {
                let i = choose|i: int| 0 <= i < now.len() && now[i] == t;
                if i < before.len() {
                    assert(before[i] == t);
                    assert(before.contains(t));
                    let j = choose|j: int| 0 <= j < front.len() && front[j] == t;
                    assert(remote[j] == t);
                } else {
                    assert(remote[remote.len() - 1] == t);
                }
            }
            if remote.contains(t) && !local.contains(t) {
                let j = choose|j: int| 0 <= j < remote.len() && remote[j] == t;
                if j < front.len() {
                    assert(front[j] == t);
                    assert(front.contains(t));
                    assert(before.contains(t));
                    let i = choose|i: int| 0 <= i < before.len() && before[i] == t;
                    assert(now[i] == t);
                } else if before.contains(t) {
                    let i = choose|i: int| 0 <= i < before.len() && before[i] == t;
                    assert(now[i] == t);
                } else {
                    assert(now[now.len() - 1] == t);
                }
            }
        }
    }
    if now.len() == 0 {
        assert forall|i: int| 0 <= i < remote.len() implies local.contains(
            #[trigger] remote[i],
        ) by {
            assert(remote.contains(remote[i]));
            assert(!now.contains(remote[i]));
        }
    } else {
        assert(now.contains(now[0]));
        let j = choose|j: int| 0 <= j < remote.len() && remote[j] == now[0];
        assert(!local.contains(remote[j]));
    }
    let all = local + now;
    assert forall|t: Seq<char>| #[trigger]
        all.contains(t) <==> local.contains(t) || remote.contains(t) by {
        if all.contains(t) {
            let i = choose|i: int| 0 <= i < all.len() && all[i] == t;
            if i < local.len() {
                assert(local[i] == t);
            } else {
                assert(now[i - local.len()] == t);
                assert(now.contains(t));
            }
        }
        if local.contains(t) {
            let i = choose|i: int| 0 <= i < local.len() && local[i] == t;
            assert(all[i] == t);
        } else if remote.contains(t) {
            assert(now.contains(t));
            let i = choose|i: int| 0 <= i < now.len() && now[i] == t;
            assert(all[local.len() + i] == t);
        }
    }
}

/// Whether `tag` is among `tags`.
pub fn has_tag(tags: &Vec<String>, tag: &String) -> (r: bool)
    ensures
        r == strings_view(tags@).contains(tag@),
{
    let n = tags.len();
    let mut i: usize = 0;
    while i < n
        invariant
            i <= n,
            n == tags.len(),
            forall|j: int| 0 <= j < i ==> strings_view(tags@)[j] != tag@,
        decreases n - i,
    {
        if tags[i] == *tag {
            assert(strings_view(tags@)[i as int] == tag@);
            return true;
        }
        i += 1;
    }
    false
}

/// Decides what is written to an image that has the tags `local` when the
/// service reports the tags `remote`. `None` means that nothing is written.
pub fn merge_tags(local: &Vec<String>, remote: &Vec<String>) -> (r: Option<Vec<String>>)
    ensures
        match merged_tags(strings_view(local@), strings_view(remote@)) {
            None => r is None,
            Some(all) => r matches Some(v) && strings_view(v@) == all,
        },
{
    let ghost lv = strings_view(local@);
    let ghost rv = strings_view(remote@);
    let mut added: Vec<String> = Vec::new();
    let n = remote.len();
    let mut i: usize = 0;
    proof {
        assert(rv.take(0) =~= Seq::<Seq<char>>::empty());
        assert(strings_view(added@) =~= added_tags(lv, rv.take(0)));
    }
    while i < n
        invariant
            i <= n,
            n == remote.len(),
            lv == strings_view(local@),
            rv == strings_view(remote@),
            strings_view(added@) == added_tags(lv, rv.take(i as int)),
        decreases n - i,
    {
        proof {
            assert(rv.take(i + 1).drop_last() =~= rv.take(i as int));
            assert(rv.take(i + 1).last() == remote[i as int]@);
        }
        if !has_tag(local, &remote[i]) && !has_tag(&added, &remote[i]) {
            let ghost before = strings_view(added@);
            added.push(remote[i].clone());
            proof {
                assert(strings_view(added@) =~= before.push(remote[i as int]@));
            }
        }
        i += 1;
    }
    proof {
        assert(rv.take(n as int) =~= rv);
        lemma_added_tags(lv, rv);
    }
    if added.len() == 0 {
        return None;
    }
    let mut all: Vec<String> = Vec::new();
    let m = local.len();
    let mut j: usize = 0;
    while j < m
        invariant
            j <= m,
            m == local.len(),
            lv == strings_view(local@),
            strings_view(all@) == lv.take(j as int),
        decreases m - j,
    {
        let ghost before = strings_view(all@);
        all.push(local[j].clone());
        proof {
            assert(strings_view(all@) =~= before.push(local[j as int]@));
            assert(lv.take(j + 1) =~= lv.take(j as int).push(lv[j as int]));
        }
        j += 1;
    }
    let ghost av = strings_view(added@);
    let ghost front = strings_view(all@);
    all.append(&mut added);
    proof {
        assert(lv.take(m as int) =~= lv);
        assert(strings_view(all@) =~= front + av);
    }
    Some(all)
}

} // verus!
