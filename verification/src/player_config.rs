//! What the player's configuration has to hold so that the player writes its
//! messages as frames.

use crate::frames::{arguments_bytes, frame_of};
use crate::messages::{lemma_markers, FIELD_SEPARATOR};
use crate::text::ascii_bytes;
use vstd::prelude::*;
use vstd::string::*;

verus! {

/// One setting of the player's configuration.
#[derive(Clone, Copy, Debug, PartialEq, Eq)]
pub struct FormatSetting {
    /// The name of the setting.
    pub key: &'static str,
    /// The format: what the player writes, with a placeholder for each argument.
    pub value: &'static str,
}

/// The format that makes a frame of a message with one argument: the frame of
/// that type with the placeholder `%s` as its argument.
pub open spec fn message_format(name: Seq<char>) -> Seq<u8> {
    frame_of(ascii_bytes(name), seq![ascii_bytes("%s"@)])
}

/// The format that makes a frame of a song in a list: the frame with the
/// placeholders of the artist, `%a`, and of the title, `%t`, as its arguments.
pub open spec fn song_format() -> Seq<u8> {
    frame_of(ascii_bytes("LIST_ENTRY_SONG"@), seq![ascii_bytes("%a"@), ascii_bytes("%t"@)])
}

/// The format of the time, which the player writes once a second.
pub fn time_format() -> (setting: FormatSetting)
    ensures
        setting.key@ == "format_msg_time"@,
        ascii_bytes(setting.value@) == message_format("TIME"@),
{
    let value = "\x1e\x1e[[#TIME#\x1e%s\x1e\x1e#]]";
    proof {
        lemma_markers();
        reveal_strlit("\x1e\x1e[[#TIME#\x1e%s\x1e\x1e#]]");
        reveal_strlit("TIME");
        reveal_strlit("%s");
        lemma_one_argument(ascii_bytes("%s"@));
        assert(ascii_bytes(value@) =~= message_format("TIME"@));
    }
    FormatSetting { key: "format_msg_time", value }
}

/// The format of what the player tells.
pub fn info_format() -> (setting: FormatSetting)
    ensures
        setting.key@ == "format_msg_info"@,
        ascii_bytes(setting.value@) == message_format("INFO"@),
{
    let value = "\x1e\x1e[[#INFO#\x1e%s\x1e\x1e#]]";
    proof {
        lemma_markers();
        reveal_strlit("\x1e\x1e[[#INFO#\x1e%s\x1e\x1e#]]");
        reveal_strlit("INFO");
        reveal_strlit("%s");
        lemma_one_argument(ascii_bytes("%s"@));
        assert(ascii_bytes(value@) =~= message_format("INFO"@));
    }
    FormatSetting { key: "format_msg_info", value }
}

/// The format of what the player asks.
pub fn question_format() -> (setting: FormatSetting)
    ensures
        setting.key@ == "format_msg_question"@,
        ascii_bytes(setting.value@) == message_format("QUESTION"@),
{
    let value = "\x1e\x1e[[#QUESTION#\x1e%s\x1e\x1e#]]";
    proof {
        lemma_markers();
        reveal_strlit("\x1e\x1e[[#QUESTION#\x1e%s\x1e\x1e#]]");
        reveal_strlit("QUESTION");
        reveal_strlit("%s");
        lemma_one_argument(ascii_bytes("%s"@));
        assert(ascii_bytes(value@) =~= message_format("QUESTION"@));
    }
    FormatSetting { key: "format_msg_question", value }
}

/// The format of a song in a list.
pub fn list_song_format() -> (setting: FormatSetting)
    ensures
        setting.key@ == "format_list_song"@,
        ascii_bytes(setting.value@) == song_format(),
{
    let value = "\x1e\x1e[[#LIST_ENTRY_SONG#\x1e%a\x1e%t\x1e\x1e#]]";
    proof {
        lemma_markers();
        reveal_strlit("\x1e\x1e[[#LIST_ENTRY_SONG#\x1e%a\x1e%t\x1e\x1e#]]");
        reveal_strlit("LIST_ENTRY_SONG");
        reveal_strlit("%a");
        reveal_strlit("%t");
        let arguments = seq![ascii_bytes("%a"@), ascii_bytes("%t"@)];
        assert(arguments.drop_last() =~= seq![ascii_bytes("%a"@)]);
        lemma_one_argument(ascii_bytes("%a"@));
        assert(arguments_bytes(arguments) =~= seq![FIELD_SEPARATOR] + ascii_bytes("%a"@)
            + seq![FIELD_SEPARATOR] + ascii_bytes("%t"@));
        assert(ascii_bytes(value@) =~= song_format());
    }
    FormatSetting { key: "format_list_song", value }
}

/// The format of a list: its lines as they are, each being a frame already.
pub fn list_format() -> (setting: FormatSetting)
    ensures
        setting.key@ == "format_msg_list"@,
        setting.value@ == "%s"@,
{
    FormatSetting { key: "format_msg_list", value: "%s" }
}

/// The settings that make the player write its messages as frames.
pub fn message_formats() -> (settings: Vec<FormatSetting>)
    ensures
        settings@.len() == 5,
        settings@[0].key@ == "format_msg_time"@,
        ascii_bytes(settings@[0].value@) == message_format("TIME"@),
        settings@[1].key@ == "format_msg_info"@,
        ascii_bytes(settings@[1].value@) == message_format("INFO"@),
        settings@[2].key@ == "format_msg_question"@,
        ascii_bytes(settings@[2].value@) == message_format("QUESTION"@),
        settings@[3].key@ == "format_list_song"@,
        ascii_bytes(settings@[3].value@) == song_format(),
        settings@[4].key@ == "format_msg_list"@,
        settings@[4].value@ == "%s"@,
{
    let mut settings: Vec<FormatSetting> = Vec::new();
    settings.push(time_format());
    settings.push(info_format());
    settings.push(question_format());
    settings.push(list_song_format());
    settings.push(list_format());
    settings
}

/// One argument stands in a frame behind one separator.
proof fn lemma_one_argument(argument: Seq<u8>)
    ensures
        arguments_bytes(seq![argument]) == seq![FIELD_SEPARATOR] + argument,
{
    let arguments = seq![argument];
    assert(arguments.drop_last() =~= Seq::<Seq<u8>>::empty());
    assert(arguments_bytes(arguments.drop_last()) =~= Seq::<u8>::empty());
    assert(arguments_bytes(arguments) =~= seq![FIELD_SEPARATOR] + argument);
}

} // verus!
