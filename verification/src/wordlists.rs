//! Word lists the clip shaping consults.

use vstd::prelude::*;
use crate::text::{chars_equal, lit};

verus! {

/// Stop words that almost never end a thought group: articles, prepositions,
/// auxiliaries, conjunctions, determiners, possessives and fillers.
pub open spec fn forbidden_tail_word(w: Seq<char>) -> bool {
    w == "a"@
        || w == "an"@
        || w == "the"@
        || w == "of"@
        || w == "to"@
        || w == "for"@
        || w == "in"@
        || w == "on"@
        || w == "at"@
        || w == "with"@
        || w == "by"@
        || w == "from"@
        || w == "into"@
        || w == "onto"@
        || w == "about"@
        || w == "as"@
        || w == "than"@
        || w == "is"@
        || w == "was"@
        || w == "are"@
        || w == "were"@
        || w == "am"@
        || w == "be"@
        || w == "been"@
        || w == "being"@
        || w == "have"@
        || w == "has"@
        || w == "had"@
        || w == "having"@
        || w == "do"@
        || w == "does"@
        || w == "did"@
        || w == "doing"@
        || w == "will"@
        || w == "would"@
        || w == "can"@
        || w == "could"@
        || w == "should"@
        || w == "may"@
        || w == "might"@
        || w == "must"@
        || w == "shall"@
        || w == "and"@
        || w == "but"@
        || w == "or"@
        || w == "so"@
        || w == "yet"@
        || w == "nor"@
        || w == "if"@
        || w == "because"@
        || w == "while"@
        || w == "since"@
        || w == "though"@
        || w == "although"@
        || w == "unless"@
        || w == "before"@
        || w == "after"@
        || w == "until"@
        || w == "that"@
        || w == "which"@
        || w == "who"@
        || w == "whom"@
        || w == "whose"@
        || w == "your"@
        || w == "my"@
        || w == "his"@
        || w == "her"@
        || w == "their"@
        || w == "its"@
        || w == "our"@
        || w == "this"@
        || w == "these"@
        || w == "those"@
        || w == "very"@
        || w == "really"@
        || w == "pretty"@
        || w == "just"@
        || w == "kinda"@
        || w == "sorta"@
        || w == "like"@
        || w == "even"@
        || w == "still"@
}

/// Every stop word has at least one character.
pub(crate) proof fn lemma_stop_word_not_empty(w: Seq<char>)
    requires
        forbidden_tail_word(w),
    ensures
        w.len() > 0,
{
    reveal_strlit("a");
    reveal_strlit("an");
    reveal_strlit("the");
    reveal_strlit("of");
    reveal_strlit("to");
    reveal_strlit("for");
    reveal_strlit("in");
    reveal_strlit("on");
    reveal_strlit("at");
    reveal_strlit("with");
    reveal_strlit("by");
    reveal_strlit("from");
    reveal_strlit("into");
    reveal_strlit("onto");
    reveal_strlit("about");
    reveal_strlit("as");
    reveal_strlit("than");
    reveal_strlit("is");
    reveal_strlit("was");
    reveal_strlit("are");
    reveal_strlit("were");
    reveal_strlit("am");
    reveal_strlit("be");
    reveal_strlit("been");
    reveal_strlit("being");
    reveal_strlit("have");
    reveal_strlit("has");
    reveal_strlit("had");
    reveal_strlit("having");
    reveal_strlit("do");
    reveal_strlit("does");
    reveal_strlit("did");
    reveal_strlit("doing");
    reveal_strlit("will");
    reveal_strlit("would");
    reveal_strlit("can");
    reveal_strlit("could");
    reveal_strlit("should");
    reveal_strlit("may");
    reveal_strlit("might");
    reveal_strlit("must");
    reveal_strlit("shall");
    reveal_strlit("and");
    reveal_strlit("but");
    reveal_strlit("or");
    reveal_strlit("so");
    reveal_strlit("yet");
    reveal_strlit("nor");
    reveal_strlit("if");
    reveal_strlit("because");
    reveal_strlit("while");
    reveal_strlit("since");
    reveal_strlit("though");
    reveal_strlit("although");
    reveal_strlit("unless");
    reveal_strlit("before");
    reveal_strlit("after");
    reveal_strlit("until");
    reveal_strlit("that");
    reveal_strlit("which");
    reveal_strlit("who");
    reveal_strlit("whom");
    reveal_strlit("whose");
    reveal_strlit("your");
    reveal_strlit("my");
    reveal_strlit("his");
    reveal_strlit("her");
    reveal_strlit("their");
    reveal_strlit("its");
    reveal_strlit("our");
    reveal_strlit("this");
    reveal_strlit("these");
    reveal_strlit("those");
    reveal_strlit("very");
    reveal_strlit("really");
    reveal_strlit("pretty");
    reveal_strlit("just");
    reveal_strlit("kinda");
    reveal_strlit("sorta");
    reveal_strlit("like");
    reveal_strlit("even");
    reveal_strlit("still");
}

pub fn is_forbidden_tail(w: &Vec<char>) -> (r: bool)
    ensures
        r == forbidden_tail_word(w@),
{
    chars_equal(w, &lit("a"))
        || chars_equal(w, &lit("an"))
        || chars_equal(w, &lit("the"))
        || chars_equal(w, &lit("of"))
        || chars_equal(w, &lit("to"))
        || chars_equal(w, &lit("for"))
        || chars_equal(w, &lit("in"))
        || chars_equal(w, &lit("on"))
        || chars_equal(w, &lit("at"))
        || chars_equal(w, &lit("with"))
        || chars_equal(w, &lit("by"))
        || chars_equal(w, &lit("from"))
        || chars_equal(w, &lit("into"))
        || chars_equal(w, &lit("onto"))
        || chars_equal(w, &lit("about"))
        || chars_equal(w, &lit("as"))
        || chars_equal(w, &lit("than"))
        || chars_equal(w, &lit("is"))
        || chars_equal(w, &lit("was"))
        || chars_equal(w, &lit("are"))
        || chars_equal(w, &lit("were"))
        || chars_equal(w, &lit("am"))
        || chars_equal(w, &lit("be"))
        || chars_equal(w, &lit("been"))
        || chars_equal(w, &lit("being"))
        || chars_equal(w, &lit("have"))
        || chars_equal(w, &lit("has"))
        || chars_equal(w, &lit("had"))
        || chars_equal(w, &lit("having"))
        || chars_equal(w, &lit("do"))
        || chars_equal(w, &lit("does"))
        || chars_equal(w, &lit("did"))
        || chars_equal(w, &lit("doing"))
        || chars_equal(w, &lit("will"))
        || chars_equal(w, &lit("would"))
        || chars_equal(w, &lit("can"))
        || chars_equal(w, &lit("could"))
        || chars_equal(w, &lit("should"))
        || chars_equal(w, &lit("may"))
        || chars_equal(w, &lit("might"))
        || chars_equal(w, &lit("must"))
        || chars_equal(w, &lit("shall"))
        || chars_equal(w, &lit("and"))
        || chars_equal(w, &lit("but"))
        || chars_equal(w, &lit("or"))
        || chars_equal(w, &lit("so"))
        || chars_equal(w, &lit("yet"))
        || chars_equal(w, &lit("nor"))
        || chars_equal(w, &lit("if"))
        || chars_equal(w, &lit("because"))
        || chars_equal(w, &lit("while"))
        || chars_equal(w, &lit("since"))
        || chars_equal(w, &lit("though"))
        || chars_equal(w, &lit("although"))
        || chars_equal(w, &lit("unless"))
        || chars_equal(w, &lit("before"))
        || chars_equal(w, &lit("after"))
        || chars_equal(w, &lit("until"))
        || chars_equal(w, &lit("that"))
        || chars_equal(w, &lit("which"))
        || chars_equal(w, &lit("who"))
        || chars_equal(w, &lit("whom"))
        || chars_equal(w, &lit("whose"))
        || chars_equal(w, &lit("your"))
        || chars_equal(w, &lit("my"))
        || chars_equal(w, &lit("his"))
        || chars_equal(w, &lit("her"))
        || chars_equal(w, &lit("their"))
        || chars_equal(w, &lit("its"))
        || chars_equal(w, &lit("our"))
        || chars_equal(w, &lit("this"))
        || chars_equal(w, &lit("these"))
        || chars_equal(w, &lit("those"))
        || chars_equal(w, &lit("very"))
        || chars_equal(w, &lit("really"))
        || chars_equal(w, &lit("pretty"))
        || chars_equal(w, &lit("just"))
        || chars_equal(w, &lit("kinda"))
        || chars_equal(w, &lit("sorta"))
        || chars_equal(w, &lit("like"))
        || chars_equal(w, &lit("even"))
        || chars_equal(w, &lit("still"))
}

/// Words that start a new clause; a split goes before them.
pub open spec fn leading_conjunction(w: Seq<char>) -> bool {
    w == "and"@
        || w == "but"@
        || w == "so"@
        || w == "or"@
        || w == "because"@
        || w == "however"@
        || w == "yet"@
        || w == "though"@
        || w == "while"@
        || w == "if"@
        || w == "when"@
        || w == "as"@
        || w == "since"@
        || w == "although"@
        || w == "unless"@
}

pub fn is_leading_conjunction(w: &Vec<char>) -> (r: bool)
    ensures
        r == leading_conjunction(w@),
{
    chars_equal(w, &lit("and"))
        || chars_equal(w, &lit("but"))
        || chars_equal(w, &lit("so"))
        || chars_equal(w, &lit("or"))
        || chars_equal(w, &lit("because"))
        || chars_equal(w, &lit("however"))
        || chars_equal(w, &lit("yet"))
        || chars_equal(w, &lit("though"))
        || chars_equal(w, &lit("while"))
        || chars_equal(w, &lit("if"))
        || chars_equal(w, &lit("when"))
        || chars_equal(w, &lit("as"))
        || chars_equal(w, &lit("since"))
        || chars_equal(w, &lit("although"))
        || chars_equal(w, &lit("unless"))
}

} // verus!
