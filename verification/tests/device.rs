use lightctrl::{Color, LEDDevice, LEDError};

fn rgb(red: f32, green: f32, blue: f32) -> Color {
    Color::new(red.to_bits(), green.to_bits(), blue.to_bits())
}

#[test]
fn test_wrong_size() {
    let dev = LEDDevice::new(1);
    match dev.update(&[rgb(0.0, 0.0, 0.0), rgb(1.0, 0.0, 1.0)]) {
        Ok(_) => panic!(),
        Err(LEDError::SizeError { expected, received }) => {
            assert_eq!(expected, 1);
            assert_eq!(received, 2);
        }
        Err(_) => panic!(),
    }
}

#[test]
fn test_data() {
    let dev = LEDDevice::new(1);
    let recv = dev.update(&[rgb(1.0, 0.5, 0.0)]).unwrap();
    assert_eq!(recv, [255, 127, 0]);
}

#[test]
fn too_few_colors_are_refused() {
    let dev = LEDDevice::new(4);
    match dev.update(&[rgb(0.1, 0.2, 0.3)]) {
        Err(LEDError::SizeError { expected, received }) => {
            assert_eq!(expected, 4);
            assert_eq!(received, 1);
        }
        _ => panic!(),
    }
}

#[test]
fn empty_frame_for_a_lit_strip_is_refused() {
    let dev = LEDDevice::new(3);
    match dev.update(&[]) {
        Err(LEDError::SizeError { expected, received }) => {
            assert_eq!(expected, 3);
            assert_eq!(received, 0);
        }
        _ => panic!(),
    }
}

#[test]
fn any_frame_for_a_strip_without_leds_is_refused() {
    let dev = LEDDevice::new(0);
    match dev.update(&[rgb(1.0, 1.0, 1.0)]) {
        Err(LEDError::SizeError { expected, received }) => {
            assert_eq!(expected, 0);
            assert_eq!(received, 1);
        }
        _ => panic!(),
    }
}

#[test]
fn strip_without_leds_gets_an_empty_datagram() {
    let dev = LEDDevice::new(0);
    let data = dev.update(&[]).unwrap();
    assert!(data.is_empty());
}

#[test]
fn datagram_holds_three_bytes_per_color_in_order() {
    let dev = LEDDevice::new(4);
    let frame = [
        rgb(1.0, 0.3, 0.5),
        rgb(0.3, 0.1, 1.0),
        rgb(0.0, 0.4, 0.8),
        rgb(0.1, 0.3, 0.8),
    ];
    let data = dev.update(&frame).unwrap();
    assert_eq!(data, vec![255, 76, 127, 76, 25, 255, 0, 102, 204, 25, 76, 204]);
}

#[test]
fn same_frame_gives_same_datagram() {
    let dev = LEDDevice::new(3);
    let frame = [rgb(0.9, 0.2, 0.7), rgb(-1.0, 2.0, 0.5), rgb(0.25, 0.75, 1.0)];
    let first = dev.update(&frame).unwrap();
    let second = dev.update(&frame).unwrap();
    assert_eq!(first, second);
    assert_eq!(first, vec![229, 51, 178, 0, 255, 127, 63, 191, 255]);
}

#[test]
fn reordered_frame_gives_reordered_datagram() {
    let dev = LEDDevice::new(3);
    let a = rgb(1.0, 0.0, 0.0);
    let b = rgb(0.0, 1.0, 0.0);
    let c = rgb(0.0, 0.0, 1.0);
    let forward = dev.update(&[a, b, c]).unwrap();
    let backward = dev.update(&[c, b, a]).unwrap();
    assert_eq!(forward, vec![255, 0, 0, 0, 255, 0, 0, 0, 255]);
    assert_eq!(backward, vec![0, 0, 255, 0, 255, 0, 255, 0, 0]);
    for i in 0..3 {
        let j = 2 - i;
        assert_eq!(forward[3 * i..3 * i + 3], backward[3 * j..3 * j + 3]);
    }
}

#[test]
fn failed_update_leaves_the_strip_usable() {
    let dev = LEDDevice::new(1);
    assert!(dev.update(&[]).is_err());
    assert_eq!(dev.update(&[rgb(0.5, 0.5, 0.5)]).unwrap(), vec![127, 127, 127]);
}

#[test]
fn one_color_encodes_to_three_bytes() {
    assert_eq!(LEDDevice::to_u8(&rgb(1.0, 0.5, 0.0)), [255, 127, 0]);
    assert_eq!(LEDDevice::to_u8(&rgb(-3.0, 2.5, f32::NAN)), [0, 255, 0]);
}

#[test]
fn color_keeps_its_channels() {
    let color = Color::new(0x3f80_0000, 0x3f00_0000, 0x8000_0000);
    assert_eq!(color.red, 0x3f80_0000);
    assert_eq!(color.green, 0x3f00_0000);
    assert_eq!(color.blue, 0x8000_0000);
    let copy = color;
    assert_eq!(copy.red, color.red);
}
