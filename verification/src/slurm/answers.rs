//! What the answer of scontrol gives: each value from the last word with its key.

use vstd::prelude::*;
use crate::number::{decimal, decimal_reads_back, number_i32, number_u32};
use crate::slurm::slurm::{
    capitals, first_line, job_answer, job_read, nodes_expanded, parted, state_named, with_word,
    with_words, JobInfoView, JobStateView, SlurmErrorView,
};
use crate::text::{
    begins, fields, first_cut, holds, lemma_first_cut_at, lemma_first_cut_bounds, lines, words, Cut,
};

verus! {

/// The word gives a value for the key, which stands at its start, with the equals sign.
pub open spec fn gives(word: Seq<char>, key: Seq<char>) -> bool {
    begins(word, key)
}

/// The last of the words that gives a value for a key.
pub open spec fn is_last_with(list: Seq<Seq<char>>, i: int, key: Seq<char>) -> bool {
    &&& 0 <= i < list.len()
    &&& gives(list[i], key)
    &&& forall|j: int| i < j < list.len() ==> !gives(#[trigger] list[j], key)
}

/// No word from the given one on gives a value for the key.
pub open spec fn none_with(list: Seq<Seq<char>>, from: int, key: Seq<char>) -> bool {
    forall|j: int| from <= j < list.len() ==> !gives(#[trigger] list[j], key)
}

/// What stands behind the key in a word.
pub open spec fn value_in(word: Seq<char>, key: Seq<char>) -> Seq<char> {
    word.skip(key.len() as int)
}

/// The line is the first of a text that is not empty.
pub open spec fn is_first_line(output: Seq<char>, n: int) -> bool {
    &&& 0 <= n < lines(output).len()
    &&& lines(output)[n].len() > 0
    &&& forall|k: int| 0 <= k < n ==> (#[trigger] lines(output)[k]).len() == 0
}

proof fn lemma_first_line(list: Seq<Seq<char>>, n: int)
    requires
        0 <= n < list.len(),
        list[n].len() > 0,
        forall|k: int| 0 <= k < n ==> (#[trigger] list[k]).len() == 0,
    ensures
        first_line(list) == Some(list[n]),
    decreases n,
{
    if n > 0 {
        let rest = list.skip(1);
        assert(list[0].len() == 0);
        assert(rest[n - 1] == list[n]);
        assert forall|k: int| 0 <= k < n - 1 implies (#[trigger] rest[k]).len() == 0 by {
            assert(rest[k] == list[k + 1]);
        }
        lemma_first_line(rest, n - 1);
    }
}

proof fn lemma_no_line(list: Seq<Seq<char>>)
    requires
        forall|k: int| 0 <= k < list.len() ==> (#[trigger] list[k]).len() == 0,
    ensures
        first_line(list) is None,
    decreases list.len(),
{
    if list.len() > 0 {
        let rest = list.skip(1);
        assert(list[0].len() == 0);
        assert forall|k: int| 0 <= k < rest.len() implies (#[trigger] rest[k]).len() == 0 by {
            assert(rest[k] == list[k + 1]);
        }
        lemma_no_line(rest);
    }
}

/// A name and what follows its equals sign, taken apart again.
proof fn lemma_parted(word: Seq<char>, name: Seq<char>)
    requires
        begins(word, name + seq!['=']),
        !name.contains('='),
    ensures
        parted(word, '=') == Some((name, word.skip(name.len() as int + 1))),
{
    let key = name + seq!['='];
    let n = name.len() as int;
    assert(word.take(n + 1) == key);
    assert forall|j: int| 0 <= j < n implies !Cut::At('=').hits(#[trigger] word[j]) by {
        assert(word.take(n + 1)[j] == word[j]);
        assert(key[j] == name[j]);
        assert(name.contains(name[j]));
    }
    assert(word.take(n + 1)[n] == word[n]);
    assert(key[n] == '=');
    lemma_first_cut_at(word, Cut::At('='), n);
    assert(word.take(n) =~= name) by {
        assert forall|j: int| 0 <= j < n implies word[j] == name[j] by {
            assert(word.take(n + 1)[j] == word[j]);
            assert(key[j] == name[j]);
        }
    }
}

/// A word that is taken apart begins with the name and the equals sign.
proof fn lemma_parted_back(word: Seq<char>)
    ensures
        parted(word, '=') matches Some(pair) ==> begins(word, pair.0 + seq!['=']),
{
    lemma_first_cut_bounds(word, Cut::At('='));
    let i = first_cut(word, Cut::At('='));
    if i < word.len() {
        assert(word.take(i + 1) =~= word.take(i) + seq!['=']);
    }
}

/// The keys as they stand in an answer.
proof fn lemma_keys()
    ensures
        "JobId="@ == "JobId"@ + seq!['='],
        !"JobId"@.contains('='),
        "JobName="@ == "JobName"@ + seq!['='],
        !"JobName"@.contains('='),
        "Name="@ == "Name"@ + seq!['='],
        !"Name"@.contains('='),
        "JobState="@ == "JobState"@ + seq!['='],
        !"JobState"@.contains('='),
        "UserId="@ == "UserId"@ + seq!['='],
        !"UserId"@.contains('='),
        "NodeList="@ == "NodeList"@ + seq!['='],
        !"NodeList"@.contains('='),
        "NumNodes="@ == "NumNodes"@ + seq!['='],
        !"NumNodes"@.contains('='),
        "Partition="@ == "Partition"@ + seq!['='],
        !"Partition"@.contains('='),
        "ExitCode="@ == "ExitCode"@ + seq!['='],
        !"ExitCode"@.contains('='),
        "JobId"@ != "JobName"@,
        "JobId"@ != "Name"@,
        "JobId"@ != "JobState"@,
        "JobId"@ != "UserId"@,
        "JobId"@ != "NodeList"@,
        "JobId"@ != "NumNodes"@,
        "JobId"@ != "Partition"@,
        "JobId"@ != "ExitCode"@,
        "JobName"@ != "Name"@,
        "JobName"@ != "JobState"@,
        "JobName"@ != "UserId"@,
        "JobName"@ != "NodeList"@,
        "JobName"@ != "NumNodes"@,
        "JobName"@ != "Partition"@,
        "JobName"@ != "ExitCode"@,
        "Name"@ != "JobState"@,
        "Name"@ != "UserId"@,
        "Name"@ != "NodeList"@,
        "Name"@ != "NumNodes"@,
        "Name"@ != "Partition"@,
        "Name"@ != "ExitCode"@,
        "JobState"@ != "UserId"@,
        "JobState"@ != "NodeList"@,
        "JobState"@ != "NumNodes"@,
        "JobState"@ != "Partition"@,
        "JobState"@ != "ExitCode"@,
        "UserId"@ != "NodeList"@,
        "UserId"@ != "NumNodes"@,
        "UserId"@ != "Partition"@,
        "UserId"@ != "ExitCode"@,
        "NodeList"@ != "NumNodes"@,
        "NodeList"@ != "Partition"@,
        "NodeList"@ != "ExitCode"@,
        "NumNodes"@ != "Partition"@,
        "NumNodes"@ != "ExitCode"@,
        "Partition"@ != "ExitCode"@,
{
    reveal_strlit("JobId=");
    reveal_strlit("JobId");
    reveal_strlit("JobName=");
    reveal_strlit("JobName");
    reveal_strlit("Name=");
    reveal_strlit("Name");
    reveal_strlit("JobState=");
    reveal_strlit("JobState");
    reveal_strlit("UserId=");
    reveal_strlit("UserId");
    reveal_strlit("NodeList=");
    reveal_strlit("NodeList");
    reveal_strlit("NumNodes=");
    reveal_strlit("NumNodes");
    reveal_strlit("Partition=");
    reveal_strlit("Partition");
    reveal_strlit("ExitCode=");
    reveal_strlit("ExitCode");
    assert("JobId="@ =~= "JobId"@ + seq!['=']);
    assert("JobId"@.len() == 5 && "JobId"@[0] == 'J' && "JobId"@[1] == 'o');
    assert(!"JobId"@.contains('='));
    assert("JobName="@ =~= "JobName"@ + seq!['=']);
    assert("JobName"@.len() == 7 && "JobName"@[0] == 'J' && "JobName"@[1] == 'o');
    assert(!"JobName"@.contains('='));
    assert("Name="@ =~= "Name"@ + seq!['=']);
    assert("Name"@.len() == 4 && "Name"@[0] == 'N' && "Name"@[1] == 'a');
    assert(!"Name"@.contains('='));
    assert("JobState="@ =~= "JobState"@ + seq!['=']);
    assert("JobState"@.len() == 8 && "JobState"@[0] == 'J' && "JobState"@[1] == 'o');
    assert(!"JobState"@.contains('='));
    assert("UserId="@ =~= "UserId"@ + seq!['=']);
    assert("UserId"@.len() == 6 && "UserId"@[0] == 'U' && "UserId"@[1] == 's');
    assert(!"UserId"@.contains('='));
    assert("NodeList="@ =~= "NodeList"@ + seq!['=']);
    assert("NodeList"@.len() == 8 && "NodeList"@[0] == 'N' && "NodeList"@[1] == 'o');
    assert(!"NodeList"@.contains('='));
    assert("NumNodes="@ =~= "NumNodes"@ + seq!['=']);
    assert("NumNodes"@.len() == 8 && "NumNodes"@[0] == 'N' && "NumNodes"@[1] == 'u');
    assert(!"NumNodes"@.contains('='));
    assert("Partition="@ =~= "Partition"@ + seq!['=']);
    assert("Partition"@.len() == 9 && "Partition"@[0] == 'P' && "Partition"@[1] == 'a');
    assert(!"Partition"@.contains('='));
    assert("ExitCode="@ =~= "ExitCode"@ + seq!['=']);
    assert("ExitCode"@.len() == 8 && "ExitCode"@[0] == 'E' && "ExitCode"@[1] == 'x');
    assert(!"ExitCode"@.contains('='));
}

/// Two readings agree in what the key stands for.
pub open spec fn agree(a: JobInfoView, b: JobInfoView, key: Seq<char>) -> bool {
    &&& key == "JobId="@ ==> a.job_id == b.job_id
    &&& key == "JobState="@ ==> a.state == b.state
    &&& key == "UserId="@ ==> a.user == b.user
    &&& key == "NodeList="@ ==> a.nodelist == b.nodelist
    &&& key == "NumNodes="@ ==> a.num_nodes == b.num_nodes
    &&& key == "Partition="@ ==> a.partition == b.partition
    &&& key == "ExitCode="@ ==> a.exit_code == b.exit_code
}

proof fn lemma_other_word(info: JobInfoView, word: Seq<char>, jobid: u32, key: Seq<char>)
    ensures
        !gives(word, key) ==> agree(with_word(info, word, jobid), info, key),
        !gives(word, "JobName="@) && !gives(word, "Name="@) ==> with_word(info, word, jobid).name
            == info.name,
{
    lemma_keys();
    lemma_parted_back(word);
}

proof fn lemma_kept(list: Seq<Seq<char>>, jobid: u32, from: int, key: Seq<char>)
    requires
        0 <= from <= list.len(),
        none_with(list, from, key),
    ensures
        agree(with_words(list, jobid), with_words(list.take(from), jobid), key),
    decreases list.len(),
{
    if from == list.len() {
        assert(list.take(from) =~= list);
    } else {
        let front = list.drop_last();
        assert(!gives(list[list.len() - 1], key));
        assert(none_with(front, from, key)) by {
            assert forall|j: int| from <= j < front.len() implies !gives(#[trigger] front[j], key) by {
                assert(front[j] == list[j]);
            }
        }
        lemma_kept(front, jobid, from, key);
        assert(front.take(from) =~= list.take(from));
        lemma_other_word(with_words(front, jobid), list.last(), jobid, key);
    }
}

proof fn lemma_name_kept(list: Seq<Seq<char>>, jobid: u32, from: int)
    requires
        0 <= from <= list.len(),
        none_with(list, from, "JobName="@),
        none_with(list, from, "Name="@),
    ensures
        with_words(list, jobid).name == with_words(list.take(from), jobid).name,
    decreases list.len(),
{
    if from == list.len() {
        assert(list.take(from) =~= list);
    } else {
        let front = list.drop_last();
        assert(!gives(list[list.len() - 1], "JobName="@));
        assert(!gives(list[list.len() - 1], "Name="@));
        assert forall|j: int| from <= j < front.len() implies !gives(
            #[trigger] front[j],
            "JobName="@,
        ) && !gives(front[j], "Name="@) by {
            assert(front[j] == list[j]);
        }
        lemma_name_kept(front, jobid, from);
        assert(front.take(from) =~= list.take(from));
        lemma_other_word(with_words(front, jobid), list.last(), jobid, "JobName="@);
    }
}

/// The last word with a key, and the readings before and after it.
proof fn lemma_last_with(list: Seq<Seq<char>>, jobid: u32, i: int, key: Seq<char>)
    requires
        is_last_with(list, i, key),
    ensures
        agree(
            with_words(list, jobid),
            with_word(with_words(list.take(i), jobid), list[i], jobid),
            key,
        ),
{
    assert(none_with(list, i + 1, key));
    lemma_kept(list, jobid, i + 1, key);
    assert(list.take(i + 1).drop_last() =~= list.take(i));
    assert(list.take(i + 1).last() == list[i]);
}

/// The answer is read from the first line that is not empty; where there is none, nothing is known.
pub proof fn first_line_is_read(output: Seq<char>, jobid: u32, n: int)
    ensures
        is_first_line(output, n) ==> job_read(output, jobid) is Ok,
        (forall|k: int| 0 <= k < lines(output).len() ==> (#[trigger] lines(output)[k]).len() == 0)
            ==> job_read(output, jobid) is Err,
{
    if is_first_line(output, n) {
        lemma_first_line(lines(output), n);
    }
    if forall|k: int| 0 <= k < lines(output).len() ==> (#[trigger] lines(output)[k]).len() == 0 {
        lemma_no_line(lines(output));
    }
}

/// The node list is what stands behind its key in the last word with it, whole and unchanged.
pub proof fn nodelist_is_the_value_whole(output: Seq<char>, jobid: u32, n: int, i: int)
    requires
        is_first_line(output, n),
        is_last_with(words(lines(output)[n]), i, "NodeList="@),
    ensures
        ({
            let value = value_in(words(lines(output)[n])[i], "NodeList="@);
            job_read(output, jobid) matches Ok(info) && info.nodelist == value
        }),
{
    let list = words(lines(output)[n]);
    lemma_first_line(lines(output), n);
    lemma_keys();
    lemma_last_with(list, jobid, i, "NodeList="@);
    lemma_parted(list[i], "NodeList"@);
}

/// The partition is what stands behind its key in the last word with it, whole and unchanged.
pub proof fn partition_is_the_value_whole(output: Seq<char>, jobid: u32, n: int, i: int)
    requires
        is_first_line(output, n),
        is_last_with(words(lines(output)[n]), i, "Partition="@),
    ensures
        ({
            let value = value_in(words(lines(output)[n])[i], "Partition="@);
            job_read(output, jobid) matches Ok(info) && info.partition == value
        }),
{
    let list = words(lines(output)[n]);
    lemma_first_line(lines(output), n);
    lemma_keys();
    lemma_last_with(list, jobid, i, "Partition="@);
    lemma_parted(list[i], "Partition"@);
}

/// The name is what stands behind one of its two keys in the last word with one, whole and unchanged.
pub proof fn name_is_the_value_whole(output: Seq<char>, jobid: u32, n: int, i: int)
    requires
        is_first_line(output, n),
        ({
            let list = words(lines(output)[n]);
            &&& 0 <= i < list.len()
            &&& gives(list[i], "JobName="@) || gives(list[i], "Name="@)
            &&& none_with(list, i + 1, "JobName="@)
            &&& none_with(list, i + 1, "Name="@)
        }),
    ensures
        ({
            let word = words(lines(output)[n])[i];
            job_read(output, jobid) matches Ok(info) && info.name == value_in(
                word,
                if gives(word, "JobName="@) {
                    "JobName="@
                } else {
                    "Name="@
                },
            )
        }),
{
    let list = words(lines(output)[n]);
    lemma_first_line(lines(output), n);
    lemma_keys();
    lemma_name_kept(list, jobid, i + 1);
    assert(list.take(i + 1).drop_last() =~= list.take(i));
    assert(list.take(i + 1).last() == list[i]);
    if gives(list[i], "JobName="@) {
        lemma_parted(list[i], "JobName"@);
    } else {
        lemma_parted(list[i], "Name"@);
    }
}

/// The state is the one that stands behind its key in the last word with it, in any case.
pub proof fn state_is_the_one_named(output: Seq<char>, jobid: u32, n: int, i: int)
    requires
        is_first_line(output, n),
        is_last_with(words(lines(output)[n]), i, "JobState="@),
    ensures
        ({
            let value = value_in(words(lines(output)[n])[i], "JobState="@);
            job_read(output, jobid) matches Ok(info) && info.state == state_named(capitals(value))
        }),
{
    let list = words(lines(output)[n]);
    lemma_first_line(lines(output), n);
    lemma_keys();
    lemma_last_with(list, jobid, i, "JobState="@);
    lemma_parted(list[i], "JobState"@);
}

/// The user is what stands behind the key, up to the number in brackets.
pub proof fn user_is_named_up_to_the_number(output: Seq<char>, jobid: u32, n: int, i: int)
    requires
        is_first_line(output, n),
        is_last_with(words(lines(output)[n]), i, "UserId="@),
    ensures
        ({
            let value = value_in(words(lines(output)[n])[i], "UserId="@);
            job_read(output, jobid) matches Ok(info) && begins(
                value,
                info.user,
            ) && !info.user.contains('(') && (value.len()
                == info.user.len() || value[info.user.len() as int] == '(')
        }),
{
    let list = words(lines(output)[n]);
    lemma_first_line(lines(output), n);
    lemma_keys();
    lemma_last_with(list, jobid, i, "UserId="@);
    lemma_parted(list[i], "UserId"@);
    let value = value_in(list[i], "UserId="@);
    lemma_first_field(value, '(');
}

/// The number of nodes is the one behind its key; zero where that is none.
pub proof fn number_of_nodes_is_the_value(output: Seq<char>, jobid: u32, n: int, i: int)
    requires
        is_first_line(output, n),
        is_last_with(words(lines(output)[n]), i, "NumNodes="@),
    ensures
        ({
            let value = value_in(words(lines(output)[n])[i], "NumNodes="@);
            job_read(output, jobid) matches Ok(info) && (forall|k: u32| #![trigger decimal(k as nat)]
                value == decimal(k as nat) ==> info.num_nodes == k) && (
            number_u32(value) is None ==> info.num_nodes == 0)
        }),
{
    let list = words(lines(output)[n]);
    lemma_first_line(lines(output), n);
    lemma_keys();
    lemma_last_with(list, jobid, i, "NumNodes="@);
    lemma_parted(list[i], "NumNodes"@);
    let value = value_in(list[i], "NumNodes="@);
    assert forall|k: u32| #![trigger decimal(k as nat)] value == decimal(k as nat) implies number_u32(
        value,
    ) == Some(k) by {
        decimal_reads_back(k as nat);
    }
}

/// The ID is the one behind its key; the one asked for where that is none.
pub proof fn job_id_is_the_value(output: Seq<char>, jobid: u32, n: int, i: int)
    requires
        is_first_line(output, n),
        is_last_with(words(lines(output)[n]), i, "JobId="@),
    ensures
        ({
            let value = value_in(words(lines(output)[n])[i], "JobId="@);
            job_read(output, jobid) matches Ok(info) && (forall|k: u32| #![trigger decimal(k as nat)]
                value == decimal(k as nat) ==> info.job_id == k) && (
            number_u32(value) is None ==> info.job_id == jobid)
        }),
{
    let list = words(lines(output)[n]);
    lemma_first_line(lines(output), n);
    lemma_keys();
    lemma_last_with(list, jobid, i, "JobId="@);
    lemma_parted(list[i], "JobId"@);
    let value = value_in(list[i], "JobId="@);
    assert forall|k: u32| #![trigger decimal(k as nat)] value == decimal(k as nat) implies number_u32(
        value,
    ) == Some(k) by {
        decimal_reads_back(k as nat);
    }
}

/// The exit code is the number behind its key up to the colon; the signal behind it plays no part.
pub proof fn exit_code_is_the_value(output: Seq<char>, jobid: u32, n: int, i: int)
    requires
        is_first_line(output, n),
        is_last_with(words(lines(output)[n]), i, "ExitCode="@),
    ensures
        ({
            let value = value_in(words(lines(output)[n])[i], "ExitCode="@);
            job_read(output, jobid) matches Ok(info) && (forall|code: i32, signal: Seq<char>|
                code >= 0 && value == #[trigger] (decimal(code as nat) + seq![':']
                    + signal) ==> info.exit_code == Some(code))
        }),
{
    let list = words(lines(output)[n]);
    lemma_first_line(lines(output), n);
    lemma_keys();
    lemma_last_with(list, jobid, i, "ExitCode="@);
    lemma_parted(list[i], "ExitCode"@);
    let value = value_in(list[i], "ExitCode="@);
    assert forall|code: i32, signal: Seq<char>|
        code >= 0 && value == #[trigger] (decimal(code as nat) + seq![':'] + signal) implies number_i32(
        fields(value, ':')[0],
    ) == Some(code) by {
        let text = decimal(code as nat);
        decimal_reads_back(code as nat);
        assert forall|j: int| 0 <= j < text.len() implies !Cut::At(':').hits(#[trigger] value[j]) by {
            assert(value[j] == text[j]);
            assert(crate::number::is_digit(text[j]));
        }
        assert(value[text.len() as int] == ':');
        lemma_first_cut_at(value, Cut::At(':'), text.len() as int);
        assert(value.take(text.len() as int) =~= text);
        assert(crate::number::is_digit(text[0]));
    }
}

/// The first piece of a text ends before the first separator.
proof fn lemma_first_field(s: Seq<char>, sep: char)
    ensures
        begins(s, fields(s, sep)[0]),
        !fields(s, sep)[0].contains(sep),
        s.len() == fields(s, sep)[0].len() || s[fields(s, sep)[0].len() as int] == sep,
{
    crate::text::fields_hold_no_separator(s, sep, 0);
    lemma_first_cut_bounds(s, Cut::At(sep));
    let i = first_cut(s, Cut::At(sep));
    let first = fields(s, sep)[0];
    if i < s.len() {
        assert(first == s.take(i));
    } else {
        assert(first == s);
        assert(s.take(s.len() as int) =~= s);
    }
}

/// What no word of the answer gives is left open: empty, zero or none, and the ID is the one asked for.
pub proof fn what_is_not_said_is_left_open(output: Seq<char>, jobid: u32, n: int)
    requires
        is_first_line(output, n),
    ensures
        ({
            let list = words(lines(output)[n]);
            job_read(output, jobid) matches Ok(info) && (none_with(list, 0, "JobId="@)
                ==> info.job_id == jobid) && (none_with(list, 0, "JobName="@) && none_with(
                list,
                0,
                "Name="@,
            ) ==> info.name == Seq::<char>::empty()) && (none_with(list, 0, "JobState="@) ==> info.state
                == JobStateView::Unknown(seq![])) && (none_with(list, 0, "UserId="@) ==> info.user
                == Seq::<char>::empty()) && (none_with(list, 0, "NodeList="@) ==> info.nodelist
                == Seq::<char>::empty()) && (none_with(list, 0, "NumNodes="@) ==> info.num_nodes == 0)
                && (none_with(list, 0, "Partition="@) ==> info.partition == Seq::<char>::empty()) && (
            none_with(list, 0, "ExitCode="@) ==> info.exit_code is None)
        }),
{
    let list = words(lines(output)[n]);
    lemma_first_line(lines(output), n);
    assert(list.take(0) =~= seq![]);
    if none_with(list, 0, "JobId="@) {
        lemma_kept(list, jobid, 0, "JobId="@);
    }
    if none_with(list, 0, "JobState="@) {
        lemma_kept(list, jobid, 0, "JobState="@);
    }
    if none_with(list, 0, "UserId="@) {
        lemma_kept(list, jobid, 0, "UserId="@);
    }
    if none_with(list, 0, "NodeList="@) {
        lemma_kept(list, jobid, 0, "NodeList="@);
    }
    if none_with(list, 0, "NumNodes="@) {
        lemma_kept(list, jobid, 0, "NumNodes="@);
    }
    if none_with(list, 0, "Partition="@) {
        lemma_kept(list, jobid, 0, "Partition="@);
    }
    if none_with(list, 0, "ExitCode="@) {
        lemma_kept(list, jobid, 0, "ExitCode="@);
    }
    if none_with(list, 0, "JobName="@) && none_with(list, 0, "Name="@) {
        lemma_name_kept(list, jobid, 0);
    }
}

/// A successful answer is read; one that says that there is no such job means that it was not found,
/// and any other failure is passed on with what was said.
pub proof fn answer_is_read_or_passed_on(stdout: Seq<char>, stderr: Seq<char>, jobid: u32)
    ensures
        job_answer(true, stdout, stderr, jobid) == job_read(stdout, jobid),
        holds(stderr, "Invalid job id"@) || holds(stderr, "not found"@) ==> job_answer(
            false,
            stdout,
            stderr,
            jobid,
        ) == Err::<JobInfoView, SlurmErrorView>(SlurmErrorView::JobNotFound(jobid)),
        !holds(stderr, "Invalid job id"@) && !holds(stderr, "not found"@) ==> job_answer(
            false,
            stdout,
            stderr,
            jobid,
        ) == Err::<JobInfoView, SlurmErrorView>(SlurmErrorView::ScontrolFailed(stderr)),
{
}

/// The nodes of a list are the lines of the answer that are not empty, and no others; an empty list has
/// none, whatever the answer, and a failure is passed on with the list.
pub proof fn nodes_are_the_lines_of_the_answer(
    nodelist: Seq<char>,
    success: bool,
    stdout: Seq<char>,
    stderr: Seq<char>,
    node: Seq<char>,
)
    ensures
        ({
            let r = nodes_expanded(nodelist, success, stdout, stderr);
            let is_empty = nodelist.len() == 0 || nodelist == "(null)"@;
            &&& is_empty ==> r == Ok::<Seq<Seq<char>>, SlurmErrorView>(seq![])
            &&& !is_empty && success ==> r is Ok && (r->Ok_0.contains(node) <==> lines(stdout).contains(
                node,
            ) && node.len() > 0)
            &&& !is_empty && !success ==> r == Err::<Seq<Seq<char>>, SlurmErrorView>(
                SlurmErrorView::ExpandFailed(nodelist, stderr),
            )
        }),
{
    let list = lines(stdout);
    let keep = |s: Seq<char>| s.len() > 0;
    let kept = list.filter(keep);
    if list.contains(node) && node.len() > 0 {
        let k = choose|k: int| 0 <= k < list.len() && list[k] == node;
        list.lemma_filter_contains(keep, k);
    }
    if kept.contains(node) {
        let k = choose|k: int| 0 <= k < kept.len() && kept[k] == node;
        list.lemma_filter_pred(keep, k);
        list.lemma_filter_contains_rev(keep, node);
    }
}

}
