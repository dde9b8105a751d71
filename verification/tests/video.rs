use hush::video::{boundary, camera, decoder, Joining, Pictures};

/// A stand-in for what the encoder writes: a start code, one byte
/// saying what the unit is, then some payload.
fn nal(kind: u8, len: usize) -> Vec<u8> {
    let mut v = vec![0, 0, 0, 1, kind];
    v.extend(std::iter::repeat(0x42).take(len));
    v
}

/// A camera that wrote all of this and stopped.
fn stopped(stream: &[u8]) -> Pictures {
    let mut p = Pictures::new();
    p.feed(stream);
    p.end();
    p
}

#[test]
fn a_keyframe_and_the_frames_after_it_come_out_one_at_a_time() {
    let mut stream = Vec::new();
    stream.extend(nal(7, 10)); // settings
    stream.extend(nal(8, 4));
    stream.extend(nal(5, 300)); // the keyframe
    stream.extend(nal(1, 40)); // two ordinary pictures
    stream.extend(nal(1, 50));
    let mut p = stopped(&stream);
    let first = p.next_picture().expect("a keyframe");
    assert!(first.len() > 300, "the keyframe carries its settings with it");
    assert_eq!(p.next_picture().map(|f| f.len()), Some(45));
    assert_eq!(p.next_picture().map(|f| f.len()), Some(55));
    assert!(p.next_picture().is_none(), "and then the camera has stopped");
}

#[test]
fn a_second_keyframe_starts_a_new_picture() {
    let mut stream = nal(5, 100);
    stream.extend(nal(7, 8));
    stream.extend(nal(5, 100));
    let mut p = stopped(&stream);
    assert_eq!(p.next_picture().map(|f| f.len()), Some(105));
    assert_eq!(p.next_picture().map(|f| f.len()), Some(118));
}

#[test]
fn a_picture_in_pieces_goes_back_together() {
    let mut j = Joining::new();
    assert!(j.take(7, 0, 3, vec![1, 2]).is_none());
    assert!(j.take(7, 2, 3, vec![5, 6]).is_none());
    assert_eq!(j.take(7, 1, 3, vec![3, 4]), Some(vec![1, 2, 3, 4, 5, 6]));
    assert_eq!(j.lost, 0);
}

#[test]
fn a_picture_with_a_piece_missing_is_dropped_when_the_next_one_starts() {
    let mut j = Joining::new();
    assert!(j.take(1, 0, 2, vec![9]).is_none());
    assert_eq!(j.take(2, 0, 1, vec![7]), Some(vec![7]), "the next whole one arrives");
    assert_eq!(j.lost, 1, "the half picture was counted and thrown away");
}

#[test]
fn nonsense_pieces_are_ignored() {
    let mut j = Joining::new();
    assert!(j.take(1, 0, 0, vec![1]).is_none(), "no pieces at all");
    assert!(j.take(1, 5, 2, vec![1]).is_none(), "a piece past the end");
}

#[test]
fn nonsense_leaves_a_picture_that_has_begun_as_it_is() {
    let mut j = Joining::default();
    assert!(j.take(1, 0, 2, vec![1]).is_none());
    assert!(j.take(9, 3, 3, vec![8]).is_none());
    assert_eq!(j.take(1, 1, 2, vec![2]), Some(vec![1, 2]));
    assert_eq!(j.lost, 0);
}

#[test]
fn a_piece_that_comes_twice_counts_once() {
    let mut j = Joining::new();
    assert!(j.take(3, 0, 2, vec![1]).is_none());
    assert!(j.take(3, 0, 2, vec![2]).is_none());
    assert_eq!(j.take(3, 1, 2, vec![3]), Some(vec![2, 3]));
}

#[test]
fn a_whole_picture_is_not_lost_when_the_next_one_starts() {
    let mut j = Joining::new();
    assert!(j.take(1, 0, 1, vec![1]).is_some());
    assert!(j.take(2, 0, 2, vec![1]).is_none());
    assert_eq!(j.lost, 0);
    // Another number of pieces is another picture, whatever it is called.
    assert!(j.take(2, 0, 3, vec![1]).is_none());
    assert_eq!(j.lost, 1);
}

#[test]
fn a_late_copy_of_a_piece_is_no_lost_picture() {
    let mut j = Joining::new();
    assert_eq!(j.take(1, 0, 2, vec![1]), None);
    assert_eq!(j.take(1, 1, 2, vec![2]), Some(vec![1, 2]));
    assert_eq!(j.take(1, 0, 2, vec![1]), None);
    assert_eq!(j.take(2, 0, 1, vec![7]), Some(vec![7]));
    assert_eq!(j.lost, 0);
}

#[test]
fn a_number_can_be_used_again() {
    let mut j = Joining::new();
    assert_eq!(j.take(1, 0, 1, vec![1]), Some(vec![1]));
    assert_eq!(j.take(1, 0, 1, vec![2]), Some(vec![2]));
    assert_eq!(j.take(4, 1, 2, vec![4]), None);
    assert_eq!(j.take(4, 0, 2, vec![3]), Some(vec![3, 4]));
    assert_eq!(j.take(4, 0, 2, vec![5]), None);
    assert_eq!(j.take(4, 1, 2, vec![6]), Some(vec![5, 6]));
    assert_eq!(j.lost, 0);
    // A picture that has begun gives way to any other.
    assert_eq!(j.take(5, 0, 1, vec![7]), Some(vec![7]));
    assert_eq!(j.take(2, 0, 2, vec![8]), None);
    assert_eq!(j.take(5, 0, 1, vec![7]), Some(vec![7]));
    assert_eq!(j.lost, 1);
}

#[test]
fn a_camera_that_fails_has_stopped() {
    for last in [None, Some(&[][..])] {
        let mut p = Pictures::new();
        p.read(Some(&nal(5, 3)));
        p.read(Some(&nal(1, 2)));
        assert!(!p.ended());
        p.read(last);
        assert!(p.ended());
        assert_eq!(p.next_picture().map(|f| f.len()), Some(8));
        assert_eq!(p.next_picture().map(|f| f.len()), Some(7));
        assert!(p.next_picture().is_none());
        assert!(p.next_picture().is_none());
    }
}

#[test]
fn a_picture_is_not_cut_again() {
    let mut stream = nal(7, 3);
    stream.extend(nal(5, 20));
    stream.extend(nal(1, 4));
    let cut = boundary(&stream).expect("two pictures");
    assert_eq!(boundary(&stream[..cut]), None);
}

#[test]
fn pictures_do_not_depend_on_how_they_are_read() {
    let mut stream = nal(7, 3);
    stream.extend(nal(5, 20));
    stream.extend(nal(1, 4));
    stream.extend([0, 0, 1, 0x41, 9, 9]);
    let mut whole = stopped(&stream);
    let mut want = Vec::new();
    while let Some(f) = whole.next_picture() {
        want.push(f);
    }
    assert_eq!(want.len(), 3);
    assert_eq!(want.concat(), stream, "no byte is lost");
    for size in 1..stream.len() {
        let mut p = Pictures::new();
        let mut got = Vec::new();
        for chunk in stream.chunks(size) {
            p.feed(chunk);
            while let Some(f) = p.next_picture() {
                got.push(f);
            }
        }
        assert!(!p.ended());
        p.end();
        assert!(p.ended());
        while let Some(f) = p.next_picture() {
            got.push(f);
        }
        assert_eq!(got, want);
    }
}

#[test]
fn there_is_no_picture_until_the_next_one_starts() {
    let mut p = Pictures::new();
    assert!(p.next_picture().is_none());
    p.feed(&nal(5, 10));
    assert!(p.next_picture().is_none());
    p.feed(&nal(1, 10));
    assert_eq!(p.next_picture().map(|f| f.len()), Some(15));
    assert!(p.next_picture().is_none());
}

#[test]
fn a_boundary_is_at_the_start_code() {
    let mut b = nal(5, 2);
    b.extend(nal(1, 2));
    assert_eq!(boundary(&b), Some(7));
    // The byte that says what the unit is has not come yet.
    assert_eq!(boundary(&b[..11]), None);
    assert_eq!(boundary(&b[..12]), Some(7));
    assert_eq!(boundary(&[]), None);
    // Other units are no picture and end none.
    let mut b = nal(5, 2);
    b.extend(nal(6, 2));
    b.extend(nal(9, 2));
    assert_eq!(boundary(&b), None);
    // A short start code is one too.
    let mut b = nal(5, 2);
    b.extend([0, 0, 1, 0x65, 1]);
    assert_eq!(boundary(&b), Some(7));
    // Settings before the first picture belong to it.
    let mut b = nal(7, 2);
    b.extend(nal(8, 2));
    b.extend(nal(5, 2));
    b.extend(nal(8, 2));
    assert_eq!(boundary(&b), Some(21));
}

#[test]
fn the_camera_encodes_on_the_chip_where_there_is_one() {
    assert_eq!(
        camera("/dev/video0", true).join(" "),
        "-hide_banner -loglevel error -vaapi_device /dev/dri/renderD128 \
         -f v4l2 -framerate 15 -i /dev/video0 \
         -vf scale=480:360,mpdecimate=hi=768:lo=320:frac=0.2,format=nv12,hwupload \
         -c:v h264_vaapi -b:v 400k -g 600 -bf 0 -f h264 -"
    );
    assert_eq!(
        camera("test", false).join(" "),
        "-hide_banner -loglevel error -re -f lavfi -i testsrc=size=480x360:rate=15 \
         -vf scale=480:360,mpdecimate=hi=768:lo=320:frac=0.2 \
         -c:v libx264 -preset ultrafast -tune zerolatency -b:v 400k -g 600 -bf 0 -f h264 -"
    );
}

#[test]
fn the_decoder_scales_to_what_is_drawn() {
    assert_eq!(
        decoder(320, 240).join(" "),
        "-hide_banner -loglevel error -flags low_delay -f h264 -i - \
         -vf scale=320:240 -pix_fmt rgb24 -f rawvideo -"
    );
}
