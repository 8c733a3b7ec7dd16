use tetris_rng::rng::{
    crunch_seed, get_next_piece, get_pre_shuffle, get_string_from_sequence, shuffle_rng,
};

#[test]
fn test_lfsr() {
    assert_eq!(0x84EF, shuffle_rng(0x09DF));
    assert_eq!(0x5D43, shuffle_rng(0xBA87));
    assert_eq!(0x0420, shuffle_rng(0x0840));
    assert_eq!(0x7AEA, shuffle_rng(0xF5D4));
    assert_eq!(0x0C10, shuffle_rng(0x1820));
    assert_eq!(0x0000, shuffle_rng(0x0000));
}
#[test]
fn test_pre_shuffled() {
    let (shuffled, by_repeats) = get_pre_shuffle();
    assert_eq!(0x84EF, shuffled[0x09DF]);
    assert_eq!(0x84EF, shuffled[0x09DF]);
    assert_eq!(0x5D43, shuffled[0xBA87]);
    assert_eq!(0x0420, shuffled[0x0840]);
    assert_eq!(0x7AEA, shuffled[0xF5D4]);
    assert_eq!(0x0C10, shuffled[0x1820]);
    assert_eq!(0x0000, shuffled[0x0000]);

    assert_eq!(0x0111, by_repeats[0x1][0x1111]);
}

#[test]
fn test_sequences() {
    let (shuffled, by_repeats) = get_pre_shuffle();
    let (s, s3) = (0x1111, 0x11);
    let expected = "OOTJTJOSZTZOSLTOJTLTZZIZIOZIJTOLLSJSJZOITZZSOLISOLLZJJZSIZSISIZSLITITSOOIJZJTLOILSSSSTJIJOJLTJSZTSLJTOSLSOSZILSISTOJSIOITSZZTSSTZJZITZZSZITJTISLOZILITZJOZSTTZIOZTLISITLLSISLITLISOOZTLSISSLTSZSTJZTSJTSJZZILIOSLTSZOZSZOTILOLOZTIZISJTLJLJZIZJTZOJLOSOITITOTOSTLIOZOTJOTSOZIJTIJOTOLITOJOZIZOLTZJOLJISTLJOZJJLITLJSOJTZOILSZSZJOZTSTJISLSITISJTZTSISZSZTSJLSJOTLJTJJLOJLITZJITJOZLTIJSLTZJIOISTZOJLJLZIOTSSLOJZLJLTITSLZLZTLSISZTOTZTJSTSLJTZSLSIZOITLTJOZSZZTIJTJJLZTZLSLTZJZILITSLJSZLLJLSLJTJOOTZSJTLITTOOTJTSLJSILSILITZLZJIZSTOZIOTLTOIJOZTLTZLSTJZIOITIOJZSLSTITZTLSZJSLITJZJTZLSTSJZOJTZJIJOTZOLLIZOTIJSOJOOTLTLZJOOJLTJZSOIZITLIJJSSZSLSIOTOLTJTOTOLISLJSJOTZLITZJLZTLIILTJJISZOSJIZLSTZOITIOTOSZJLOSTIOZSZOSLZJOZTSSIOTSZTTJLSIOSZTLJZOZSSTJLOJZITZJLTSSZIOOSTZTJSTLTLOSTTLSITZTOZLOTLJILTZISZJTLOSJSOJLJLTJLITZJIOZTISZLZJJTSLOSJIJSTSLOJTZLJTSLSOTZOIIZOJISTJOSTLSOSTZIOTOSZJLJZLZJLSZLISTZSITSITZTZOLSSOTITOILIZJZJTISTLSSJLZITZLTZOTJITJOIOTLZJTISLSZISSIOIZJLSISLZSZSITISLTISITJTZJSLZZJLIJLZTIZIJOZIJOITIOJZOOSTOIZOLJSO";
    let mut sequence = vec![0; expected.len() as usize].into_boxed_slice();
    let _ = crunch_seed(s, s3, &shuffled, &by_repeats, &mut sequence, 1000);
    let string = get_string_from_sequence(&sequence);
    assert_eq!(string, expected);

    let (s, s3) = (0xFFFF, 0xFF);
    let expected = "TZTSILSOOJZJZSOZOLILTZSJOIOTLJSTZOJILTSTLJZILTTISJOZJTSLZJSZTSIOISLTSSLJSSTOOISTZJOTOTOZSILISOLSITZIOZLJZOZSZZOLTLLTZIJLZLOZILSTSOIJLTOTZLILOJOTIOSTJLTOSJLSTJLOZLSISOLJZOJILJSZOSTSITOJZJZIOSITZTOJSIJISZLJOZTITZIJOISIJTJSOJZSTZILOJTZISITIOSOTIZOOZJOZJTZZILIOITOTILTJOIJIZOOLZOIZJZZJZISJZSOTZLTJLSIOTIJSZSJSTOSJLSISTZTJOOILOZOIJTOTLTJIOLSTZJSTZOJZJZTOJJILSZTSLIZJTITSZLZSLOTZOTITJLJIJLZSOTLSLZJSTZTTZOITLTJSJOTIOISOSLOZLZJLJZLTSLZTJIZTZOITLJSLIJLTJSJTLSJTJOZZOTSOJOZOIJITZLZIOLOZIZIJTSTIOTJSIOTSOLTJZOLJSOSJSIJIJJTSLOZZLSOTZTSZILSIOZLZZTSJZJTSZSISTSISOIOJSIOOLTOJSOTOSZISSTLZIOZIOIZJZJLZLZTJITLTLJOTIOSLOSOOJSLSJTLTSJZLOJTJZJSOZJSTOTSOTSZTZTSOJZJLJTSTZJOILTLIZTOJTILSTILTIOLTZLLZIJOZJTSILOSILITOJSOJZSTOZLOZOLSJZIJZJIJSZLOSLSLLTTSOZOOTSISISTJISSOLOISOTZOIJIOLTISOOTSJOJJTIOTOILSTLSOJSSOSLISLLSZOOZIOJSOTSIOSTZTITSIZTOJOJOISIOJOZOLITOTLJOZSIZLOTZTJOZJSOTSSTOSTSIJILISIZSZJTIJOTJOLTISZJIOILZSITOIOSJZTZOSTOSSOLIZJSOZLOLTOLOZSJLOJTZILZITLSJOSOZOLSISLZLJSLTISOILOLIJLIZSIZTZTZTJZJSLTLISJSTSJOZOOTJSIOOSTOLT";
    let mut sequence = vec![0; expected.len() as usize].into_boxed_slice();
    let _ = crunch_seed(s, s3, &shuffled, &by_repeats, &mut sequence, 1000);
    let string = get_string_from_sequence(&sequence);
    assert_eq!(string, expected);

    let (s, s3) = (0x8888, 0x88);
    let expected = "JOSTZIOJSTLTTLSOLSZOLISLIOLTSSOTZOZTJJTJZSIJLTSJTZTJLTSJSISTTZZJTJZSTIOZISJJZJSJSJILOJLSIOTJLOSJILIZJSSLJILTOJISIJZLOTSJOIOTTIJTOOISJOZJTJIOLSIOISTJILZILITJSOTOSZSISLITZOIZJTOLOSJIOLILIOLSOZSOIOZTTOOLITZITTJTLOLITSJTOSTIOLTIOTSTZJTOSZTJZJSSZJZLJTZTSIJOIZOJLZJZLIOLTJOIOTZISOJLSSOLIOIZILOTSLZOLTJOSIZIOLZLZOLISOJLTZLSOSZTSZSTOLZLOZSJTTIJSZLZLISZLJLSOJTLOZJISJITSILJLJJTZJZLSLOITSITLJLITITTOLILOISOTISOLTSZIZJIJZJLZOTIJOLTTITIZTSTTSITOTJSJSZZLTISTTOSLILSISZSLJOSJSJITIOISJTZIITSIOTJSIJLTITLOJIOJSOOTLZIJZJOOLLZJSOSTSSZISTZOLOZILTSZOTSLJZSLZOLJZISZOTJJSSILZSLIJIOITOZTOLZSOIZLOZSZJOIJLOJOSTJTLSIZLJZZJTIZOLJTOLSOZTJZSJTZLTOJJLIZTSTTISOSILTLISITJTIZOZSZISIZLJIIJTILZJIOITSOOITZSILJLTOIOOJZSZJLSTSLZOZJTJIZJISJZSOJSJTSJLSLOJZTSOLTZJTIZLTISJZSOJLLJTOSIJSLZIZOSJLJJISJOITOLIOOZSSJLTJOIJOSISOJTIOJTJOSOZJZOLIOIZOJOOZLTLTOSITISJZITIZTOTSOSOLOOTIJSOJSZSZLOZSTSTJLOLTSJLTISOSLOTLJSILTJTITZJZJSOZJTZIOZSTJJSOSTILTOTIZTJTOJZIZJZTOSJLIOISLTIZSLISZSTZSTILTIZJOTJJOJZJOLTSOSLTJZOJLSTZLSSZIJIOSIJLSOLZJTJSZSZJLZTOIOZZ";
    let mut sequence = vec![0; expected.len() as usize].into_boxed_slice();
    let _ = crunch_seed(s, s3, &shuffled, &by_repeats, &mut sequence, 1000);
    let string = get_string_from_sequence(&sequence);
    assert_eq!(string, expected);
}

#[test]
fn test_next_piece_seed() {
    let (shuffled, by_repeats) = get_pre_shuffle();
    // repeat nybble, set_seed+0, set_seed+1, set_seed+2, spawn_id
    assert_eq!(
        (0x01, 0x0110, 0x02, 0x0A),
        get_next_piece(0x01, 0x1111, 0x11, 0x00, &shuffled, &by_repeats)
    );
}

const IDS: [u8; 7] = [0x02, 0x07, 0x08, 0x0A, 0x0B, 0x0E, 0x12];

#[test]
fn shuffle_of_zero_is_zero_and_of_low_bit_alone_too() {
    assert_eq!(0x0000, shuffle_rng(0x0000));
    assert_eq!(0x0000, shuffle_rng(0x0001));
    assert_eq!(0x8001, shuffle_rng(0x0002));
}

#[test]
fn repeat_table_matches_direct_application() {
    let (shuffled, by_repeats) = get_pre_shuffle();
    assert_eq!(shuffled.len(), 0x10000);
    assert_eq!(by_repeats.len(), 16);
    for &(r, x) in &[(0usize, 0x1111usize), (1, 0x1111), (7, 0xBEEF), (15, 0x8001), (0, 0xFFFF)] {
        let times = if r == 0 { 19 } else { r + 3 };
        let mut s = x as u16;
        for _ in 0..times {
            s = shuffle_rng(s);
        }
        assert_eq!(by_repeats[r].len(), 0x10000);
        assert_eq!(by_repeats[r][x], s);
    }
}

#[test]
fn generating_twice_gives_the_same_pieces() {
    let (shuffled, by_repeats) = get_pre_shuffle();
    let mut first = vec![0u8; 300].into_boxed_slice();
    let mut second = vec![0u8; 300].into_boxed_slice();
    crunch_seed(0x8888, 0x88, &shuffled, &by_repeats, &mut first, 300);
    crunch_seed(0x8888, 0x88, &shuffled, &by_repeats, &mut second, 300);
    assert_eq!(first, second);
    let mut shorter = vec![0xFFu8; 300].into_boxed_slice();
    crunch_seed(0x8888, 0x88, &shuffled, &by_repeats, &mut shorter, 120);
    assert_eq!(&shorter[..120], &first[..120]);
    assert!(shorter[120..].iter().all(|&b| b == 0xFF));
}

#[test]
fn zero_length_writes_nothing() {
    let (shuffled, by_repeats) = get_pre_shuffle();
    let mut sequence = vec![5u8; 4].into_boxed_slice();
    crunch_seed(0x1234, 0x56, &shuffled, &by_repeats, &mut sequence, 0);
    assert_eq!(&sequence[..], &[5u8, 5, 5, 5]);
}

#[test]
fn a_repeat_only_comes_from_the_reroll() {
    let (shuffled, by_repeats) = get_pre_shuffle();
    let mut state = (0x01u8, 0x1111u16, 0x11u8, 0x00u8);
    let mut rerolls = 0;
    for _ in 0..5000 {
        let (sel, seed, s3, spawn) = state;
        let next = get_next_piece(sel, seed, s3, spawn, &shuffled, &by_repeats);
        let counter = ((s3 as u16 + 1) & 0xFF) as u16;
        let roll = by_repeats[sel as usize][seed as usize];
        let pick = (((roll >> 8) + counter) & 7) as usize;
        let rerolled = pick == 7 || IDS[pick] == spawn;
        if next.3 == spawn {
            assert!(rerolled);
        }
        if rerolled {
            rerolls += 1;
            assert_eq!(next.1, shuffled[roll as usize] & 0xFFFE);
        } else {
            assert_eq!(next.3, IDS[pick]);
            assert_eq!(next.1, roll & 0xFFFE);
        }
        assert_eq!(next.0, sel);
        assert_eq!(next.2, (s3.wrapping_add(1)) & 7);
        state = next;
    }
    assert!(rerolls > 0);
}

#[test]
fn letters_of_piece_ids() {
    let sequence = vec![0x02u8, 0x07, 0x08, 0x0A, 0x0B, 0x0E, 0x12].into_boxed_slice();
    assert_eq!(get_string_from_sequence(&sequence), "TJZOSLI");
    let unknown = vec![0x00u8, 0x02, 0x03, 0xFF, 0x12].into_boxed_slice();
    assert_eq!(get_string_from_sequence(&unknown), "TI");
    let empty: Box<[u8]> = Vec::new().into_boxed_slice();
    assert_eq!(get_string_from_sequence(&empty), "");
}
