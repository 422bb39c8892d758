use yachiyo::audio::downsample_stereo_48k_to_mono_16k;
use yachiyo::chat::Outcome;
use yachiyo::clock::LocalTime;
use yachiyo::dify::Reply;
use yachiyo::dify_stream::DifyStreamResult;
use yachiyo::memory_log::append_chat_log;
use yachiyo::memory_log::read_last_entries;
use yachiyo::speech::audio_query_call;
use yachiyo::speech::audio_query_result;
use yachiyo::speech::choose_speaker_id;
use yachiyo::speech::find_himari;
use yachiyo::speech::is_noise_or_hallucination;
use yachiyo::speech::read_speakers;
use yachiyo::speech::resolve_himari_speaker_id;
use yachiyo::speech::run_whisper;
use yachiyo::speech::speakers_url;
use yachiyo::speech::speech_of;
use yachiyo::speech::synthesis_call;
use yachiyo::speech::synthesis_failure;
use yachiyo::speech::synthesis_result;
use yachiyo::speech::utterance;
use yachiyo::speech::voicevox_url;
use yachiyo::speech::wav_failure;
use yachiyo::speech::wav_out_path;
use yachiyo::speech::whisper_command;
use yachiyo::speech::Recognised;
use yachiyo::speech::Speaker;
use yachiyo::speech::SpeechError;
use yachiyo::voice_buffer::UserBuffer;
use yachiyo::voice_buffer::VoiceShared;

fn shared() -> VoiceShared {
    VoiceShared::new("log".to_string(), 75)
}

fn spoken(ssrc: u32, pcm: &[i16]) -> Vec<(u32, Option<Vec<i16>>)> {
    vec![(ssrc, Some(pcm.to_vec()))]
}

/// Ten frames of speech and `pauses` of silence.
fn speak(shared: &mut VoiceShared, ssrc: u32, pauses: usize) -> Vec<(u32, Vec<i16>)> {
    let mut taken = Vec::new();
    for i in 0..10 {
        taken.extend(shared.tick(&spoken(ssrc, &[i, i]), &vec![]).unwrap());
    }
    for _ in 0..pauses {
        taken.extend(shared.tick(&vec![], &vec![ssrc]).unwrap());
    }
    taken
}

#[test]
fn sound_is_brought_down() {
    assert_eq!(downsample_stereo_48k_to_mono_16k(&[]), Vec::<i16>::new());
    assert_eq!(downsample_stereo_48k_to_mono_16k(&[5]), Vec::<i16>::new());
    assert_eq!(downsample_stereo_48k_to_mono_16k(&[1, 3, 4, 6, 7, 9]), vec![5]);
    assert_eq!(downsample_stereo_48k_to_mono_16k(&[1, 2, 3, 4, 9, 9, 7, 8, 100]), vec![4, 7]);
    assert_eq!(downsample_stereo_48k_to_mono_16k(&[-1, -2, -3, -4, 0, 0]), vec![-1]);
    assert_eq!(
        downsample_stereo_48k_to_mono_16k(&[i16::MIN, i16::MIN, i16::MAX, i16::MAX]),
        vec![0]
    );
}

#[test]
fn sound_keeps_its_level() {
    assert_eq!(downsample_stereo_48k_to_mono_16k(&[i16::MIN; 20]), vec![i16::MIN; 4]);
    assert_eq!(downsample_stereo_48k_to_mono_16k(&[i16::MAX; 12]), vec![i16::MAX; 2]);
    let wave: Vec<i16> = (0..961).map(|i| ((i * 37) % 201 - 100) as i16).collect();
    let low = downsample_stereo_48k_to_mono_16k(&wave);
    assert_eq!(low.len(), 160);
    assert!(low.iter().all(|s| -100 <= *s && *s <= 100));
}

#[test]
fn an_utterance_ends_with_half_a_second_of_silence() {
    let mut s = shared();
    assert!(speak(&mut s, 7, 24).is_empty());
    let taken = s.tick(&vec![], &vec![7]).unwrap();
    assert_eq!(taken.len(), 1);
    assert_eq!(taken[0].0, 7);
    let all: Vec<i16> = (0..10).flat_map(|i| [i, i]).collect();
    assert_eq!(taken[0].1, all);
    assert!(s.tick(&vec![], &vec![7]).unwrap().is_empty());
}

#[test]
fn utterances_that_are_too_short_are_skipped() {
    let mut s = shared();
    for _ in 0..3 {
        for _ in 0..6 {
            assert!(s.tick(&spoken(7, &[1]), &vec![]).unwrap().is_empty());
        }
        for _ in 0..25 {
            assert!(s.tick(&vec![], &vec![7]).unwrap().is_empty());
        }
    }
    let taken = speak(&mut s, 7, 25);
    let all: Vec<i16> = (0..10).flat_map(|i| [i, i]).collect();
    assert_eq!(taken, vec![(7, all)]);
}

#[test]
fn a_short_break_does_not_end_an_utterance() {
    let mut s = shared();
    for _ in 0..9 {
        s.tick(&spoken(7, &[1]), &vec![]).unwrap();
    }
    for _ in 0..24 {
        assert!(s.tick(&vec![], &vec![7]).unwrap().is_empty());
    }
    s.tick(&spoken(7, &[2]), &vec![]).unwrap();
    for _ in 0..24 {
        assert!(s.tick(&vec![], &vec![7]).unwrap().is_empty());
    }
    let taken = s.tick(&vec![], &vec![7]).unwrap();
    assert_eq!(taken, vec![(7, vec![1, 1, 1, 1, 1, 1, 1, 1, 1, 2])]);
}

#[test]
fn a_short_utterance_is_skipped_while_work_goes_on() {
    let mut s = shared();
    s.begin(7);
    for _ in 0..3 {
        s.tick(&spoken(7, &[1]), &vec![]).unwrap();
    }
    for _ in 0..25 {
        s.tick(&vec![], &vec![7]).unwrap();
    }
    assert_eq!(s.buffers[&7].pcm, Vec::<i16>::new());
    assert_eq!(s.buffers[&7].speech_frames, 0);
}

#[test]
fn frames_without_sound_count_as_silence() {
    let mut s = shared();
    speak(&mut s, 7, 0);
    for _ in 0..24 {
        assert!(s.tick(&vec![(7, None)], &vec![]).unwrap().is_empty());
    }
    assert_eq!(s.tick(&vec![(7, None)], &vec![]).unwrap().len(), 1);
}

#[test]
fn nothing_is_handed_on_while_work_goes_on() {
    let mut s = shared();
    s.begin(7);
    assert!(speak(&mut s, 7, 30).is_empty());
    assert_eq!(speak(&mut s, 8, 25).len(), 1);
    s.finish(7);
    let taken = s.tick(&vec![], &vec![]).unwrap();
    assert_eq!(taken.len(), 1);
    assert_eq!(taken[0].0, 7);
}

#[test]
fn several_speakers_are_kept_apart() {
    let mut s = shared();
    for _ in 0..10 {
        s.tick(&vec![(1, Some(vec![1])), (2, Some(vec![2]))], &vec![3]).unwrap();
    }
    for _ in 0..24 {
        assert!(s.tick(&vec![], &vec![1, 2, 3]).unwrap().is_empty());
    }
    let mut taken = s.tick(&vec![], &vec![1, 2, 3]).unwrap();
    taken.sort();
    assert_eq!(taken, vec![(1, vec![1; 10]), (2, vec![2; 10])]);
}

#[test]
fn a_new_buffer_is_empty() {
    let b = UserBuffer::default();
    assert!(b.pcm.is_empty());
    assert_eq!((b.silence_count, b.speech_frames), (0, 0));
}

#[test]
fn speakers_are_called_by_their_numbers() {
    let mut s = shared();
    assert_eq!(s.memory_log_path, "log");
    assert_eq!(s.speaker_id, 75);
    assert_eq!(s.user_label(7), "ssrc_7");
    s.note_speaker(7, None);
    assert_eq!(s.user_label(7), "ssrc_7");
    s.note_speaker(7, Some(123));
    assert_eq!(s.user_label(7), "123");
    assert_eq!(s.user_label(123), "ssrc_123");
    let u = utterance(&s, 7, &[1, 1, 1, 1, 1, 1, 2, 2]);
    assert_eq!(u.label, "123");
    assert_eq!(u.wav_path, "/tmp/yachiyo_in_7.wav");
    assert_eq!(u.samples, vec![1, 2]);
}

#[test]
fn the_recogniser_is_run() {
    let c = whisper_command(None, None, "/tmp/a.wav");
    assert_eq!(c.program, "whisper-cli");
    assert_eq!(
        c.args,
        vec!["-m", "/usr/local/share/whisper/ggml-base.bin", "-f", "/tmp/a.wav", "-l", "ja", "-nt", "-np"]
    );
    let c = whisper_command(Some("w".to_string()), Some("m".to_string()), "f");
    assert_eq!((c.program.as_str(), c.args[1].as_str()), ("w", "m"));
}

#[test]
fn speech_is_taken_from_the_output() {
    assert_eq!(speech_of("\n こんにちは \n\n[00:00:00.000 --> 00:00:01.000] x\n元気？\r\n"), "こんにちは 元気？");
    assert_eq!(speech_of("[BLANK_AUDIO]\n"), "");
    assert_eq!(speech_of(""), "");
    assert_eq!(run_whisper(&Recognised::Done(b" a\nb".to_vec())), Ok("a b".to_string()));
    assert_eq!(
        run_whisper(&Recognised::Failed(b"bad\xff".to_vec())),
        Err("whisper-cli エラー: bad\u{fffd}".to_string())
    );
    assert_eq!(
        run_whisper(&Recognised::NotRun("none".to_string())),
        Err("whisper-cli 実行失敗: none".to_string())
    );
    assert_eq!(wav_failure("e"), "WAV書き出し失敗: e");
}

#[test]
fn noise_is_told_from_speech() {
    for noise in [
        "", " ", "a", " a ", "x [BLANK_AUDIO]", "(無音)", "a(silence)", "ご視聴ありがとうございました",
        "字幕は自動生成されました", "チャンネル登録お願いします", "どうもありがとうございました。",
    ] {
        assert!(is_noise_or_hallucination(noise), "{}", noise);
    }
    for speech in ["ab", "あ", "ありがとうございました", "こんにちは"] {
        assert!(!is_noise_or_hallucination(speech), "{}", speech);
    }
}

#[test]
fn an_utterance_becomes_a_question() {
    let mut s = shared();
    s.note_speaker(7, Some(123));
    let turn = utterance(&s, 7, &[])
        .recognised(&Recognised::Done("\n こんにちは \n".as_bytes().to_vec()))
        .unwrap()
        .unwrap();
    assert_eq!(turn.label, "123");
    assert_eq!(turn.key, "voice_123");
    assert_eq!(turn.query, "こんにちは");
    let now = LocalTime::new(2025, 3, 4, 5, 6, 7, 8).unwrap();
    let r = turn.request("http://x", "k", &now, "c");
    assert_eq!(r.body["user"].as_str(), Some("123"));
    assert_eq!(r.body["query"].as_str(), Some("こんにちは"));
    assert!(r.body.get("files").is_none());
    assert!(utterance(&s, 7, &[]).recognised(&Recognised::Done(b"(silence)".to_vec())).unwrap().is_none());
    assert!(utterance(&s, 7, &[]).ask(" ").is_none());
    assert!(utterance(&s, 7, &[]).recognised(&Recognised::NotRun("x".to_string())).is_err());
}

#[test]
fn an_answer_is_spoken_and_remembered() {
    let turn = utterance(&shared(), 7, &[]).ask("問い").unwrap();
    let answered = |answer: &str, id: &str| {
        Outcome::Answered(DifyStreamResult {
            answer: answer.to_string(),
            conversation_id: id.to_string(),
        })
    };
    let f = turn.finish(&answered("<think>t</think> はい", "c")).ok().unwrap();
    assert_eq!(f.keep.as_deref(), Some("c"));
    assert_eq!(f.speak.as_deref(), Some("はい"));
    let remember = f.remember.unwrap();
    assert_eq!(remember.user_input, "問い");
    assert_eq!(remember.bot_reply, "<think>t</think> はい");
    let f = turn.finish(&answered("<think>t</think>", "")).ok().unwrap();
    assert!(f.keep.is_none() && f.speak.is_none() && f.remember.is_none());
    assert_eq!(turn.finish(&Outcome::Unreachable("u".to_string())).err().unwrap(), "u");
    assert_eq!(
        turn.finish(&Outcome::Refused("500 Internal Server Error".to_string())).err().unwrap(),
        "Dify HTTP 500 Internal Server Error"
    );
    assert_eq!(turn.finish(&Outcome::Broken("b".to_string())).err().unwrap(), "b");
}

#[test]
fn the_synthesiser_is_asked() {
    assert_eq!(voicevox_url(None), "http://localhost:50021");
    assert_eq!(voicevox_url(Some("http://v".to_string())), "http://v");
    assert_eq!(speakers_url("http://v"), "http://v/speakers");
    let c = audio_query_call("http://v", "はい", 14);
    assert_eq!(c.url, "http://v/audio_query");
    assert_eq!(
        c.params,
        vec![("text".to_string(), "はい".to_string()), ("speaker".to_string(), "14".to_string())]
    );
    let c = synthesis_call("http://v", 14);
    assert_eq!(c.url, "http://v/synthesis");
    assert_eq!(c.params, vec![("speaker".to_string(), "14".to_string())]);
    assert_eq!(synthesis_failure("e"), "VOICEVOX合成失敗: e");
    assert_eq!(wav_out_path(-5), "/tmp/yachiyo_out_-5.wav");
    assert_eq!(wav_out_path(1700000000123), "/tmp/yachiyo_out_1700000000123.wav");
}

#[test]
fn the_synthesiser_replies() {
    let refused = || Reply::Refused { status: "422".to_string(), body: "b".to_string() };
    let v = audio_query_result(Reply::Accepted(b"{\"a\":[1]}".to_vec())).ok().unwrap();
    assert_eq!(v["a"][0].as_u64(), Some(1));
    assert!(matches!(
        audio_query_result(Reply::Accepted(b"{".to_vec())),
        Err(SpeechError::NotJson)
    ));
    assert!(matches!(
        audio_query_result(refused()),
        Err(SpeechError::Told(e)) if e == "VOICEVOX audio_query 失敗: 422 / b"
    ));
    assert!(matches!(
        audio_query_result(Reply::Unreachable("u".to_string())),
        Err(SpeechError::Told(e)) if e == "u"
    ));
    assert_eq!(synthesis_result(Reply::Accepted(vec![1, 2])).ok().unwrap(), vec![1, 2]);
    assert!(matches!(
        synthesis_result(refused()),
        Err(SpeechError::Told(e)) if e == "VOICEVOX synthesis 失敗: 422 / b"
    ));
    assert!(matches!(
        synthesis_result(Reply::Unreachable("u".to_string())),
        Err(SpeechError::Told(e)) if e == "u"
    ));
}

#[test]
fn the_voice_is_found() {
    let list = "[{\"name\":\"a\",\"styles\":[{\"id\":1}]},{\"name\":\"冥鳴ひまり\",\"styles\":[]},{\"name\":\"冥鳴ひまり\",\"styles\":[{\"id\":14},{\"id\":15}]}]";
    let accepted = |s: &str| Reply::Accepted(s.as_bytes().to_vec());
    assert_eq!(resolve_himari_speaker_id(&None, &accepted(list)), 14);
    assert_eq!(resolve_himari_speaker_id(&Some("5".to_string()), &accepted(list)), 5);
    assert_eq!(resolve_himari_speaker_id(&Some("x".to_string()), &accepted(list)), 14);
    assert_eq!(choose_speaker_id(&Some("5".to_string()), Some(14)), 5);
    assert_eq!(choose_speaker_id(&None, Some(14)), 14);
    assert_eq!(choose_speaker_id(&Some("".to_string()), None), 75);
    assert_eq!(resolve_himari_speaker_id(&Some("3".to_string()), &accepted("[]")), 3);
    assert_eq!(resolve_himari_speaker_id(&Some("x".to_string()), &accepted("{}")), 75);
    assert_eq!(resolve_himari_speaker_id(&None, &accepted("?")), 75);
    assert_eq!(resolve_himari_speaker_id(&None, &Reply::Unreachable("u".to_string())), 75);
    let refused = Reply::Refused { status: "500".to_string(), body: String::new() };
    assert_eq!(resolve_himari_speaker_id(&Some("8".to_string()), &refused), 8);
    assert!(read_speakers(b"{}").is_none());
    assert_eq!(read_speakers(list.as_bytes()).unwrap().len(), 3);
    let one = |id: u64| vec![Speaker { name: Some("冥鳴ひまり".to_string()), first_style: Some(id) }];
    assert_eq!(find_himari(&one(14)), Some(14));
    assert_eq!(find_himari(&one(4294967296 + 5)), Some(5));
    assert_eq!(find_himari(&vec![]), None);
}

#[test]
fn a_spoken_exchange_is_read_back() {
    let output = "\r\n[画像: a.webp] x\n これは\r\n [音楽]\nテスト \r";
    let turn = utterance(&shared(), 7, &[])
        .recognised(&Recognised::Done(output.as_bytes().to_vec()))
        .unwrap()
        .unwrap();
    assert_eq!(turn.query, "これは テスト");
    let now = LocalTime::new(2025, 3, 4, 5, 6, 7, 8).unwrap();
    let mut log = String::from("前");
    append_chat_log(&mut log, &now, &turn.query, "一\n二");
    let entries = read_last_entries(&log, 5);
    assert_eq!(entries[0].user_text, "これは テスト");
    assert!(entries[0].image_filenames.is_empty());
    assert_eq!(entries[0].bot_reply, "一\n二");
}
