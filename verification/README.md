# bluewire

The protocol logic of a Web Bluetooth stack for Linux, Node and the browser,
written in Verus and proved against its contracts.

- `src/` is the verified library:
  - `att`, `gatt`: ATT PDUs built and parsed, GATT discovery steps, long reads
    and writes;
  - `dbus`: the D-Bus value codec, messages, signatures, routing and
    answering, authentication lines and bus addresses, received descriptors;
    `round_trip` and `message_round_trip` prove that what is written reads
    back;
  - `bluez`: object paths, adapter choice, what BlueZ's signals mean, the
    mirrored object tree, the advertisement a device object describes,
    characteristic property flags, the discovery filter, and what a link's
    events do to the devices a session holds (`links`);
  - `peripheral`: the GATT application a peripheral publishes through BlueZ,
    the answers to BlueZ's calls on it, publishing and re-registering, and
    the centrals connected to it;
  - `hci`, `sys`: advertising reports, controller records, socket
    addresses;
  - `web`, `node`: the browser host's wire format, the GATT and device
    requests sent to the page and its answers, pending requests, events and
    what they do to the remembered values (`engine`), task scheduling, and
    the Node runtime's bookkeeping.
- `app/` is the ordinary Rust around it: sockets, threads, the locks around
  the mirrored and published object trees, the waiters and channels that the
  link and page events wake, the round trip to a peripheral's application,
  the page's imports and exports.
- `tests/` exercises the library on concrete values.
